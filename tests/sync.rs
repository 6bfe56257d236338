use cside::fields::is_same_file;
use cside::names::target_names;
use cside::reconcile::{reconcile, Action};

fn strings(v: &[&str]) -> Vec<String> {
    v.iter().map(|s| s.to_string()).collect()
}

fn sorted(mut v: Vec<String>) -> Vec<String> {
    v.sort();
    v
}

#[test]
fn two_tokens_give_three_names() {
    let names = target_names(&strings(&["a", "b"]));
    assert_eq!(names, strings(&["a.txt", "a_b.txt", "b.txt"]));
}

#[test]
fn no_tokens_give_no_names() {
    assert!(target_names(&Vec::new()).is_empty());
}

#[test]
fn three_tokens_give_every_run() {
    let names = target_names(&strings(&["x", "y", "z"]));
    assert_eq!(
        sorted(names),
        strings(&["x.txt", "x_y.txt", "x_y_z.txt", "y.txt", "y_z.txt", "z.txt"])
    );
}

#[test]
fn repeated_tokens_give_each_name_once() {
    let names = target_names(&strings(&["a", "a"]));
    assert_eq!(names, strings(&["a.txt", "a_a.txt"]));
}

#[test]
fn create_on_empty_directory_creates_every_name() {
    let targets = target_names(&strings(&["a", "b"]));
    let steps = reconcile(&targets, &Vec::new());
    assert_eq!(
        steps,
        vec![
            Action::Create("a.txt".to_string()),
            Action::Create("a_b.txt".to_string()),
            Action::Create("b.txt".to_string()),
        ]
    );
}

#[test]
fn exact_match_is_left_alone() {
    let targets = target_names(&strings(&["a", "b"]));
    let steps = reconcile(&targets, &strings(&["a_b.txt"]));
    assert_eq!(
        steps,
        vec![Action::Create("a.txt".to_string()), Action::Create("b.txt".to_string())]
    );
}

#[test]
fn reordered_fields_are_renamed() {
    let targets = target_names(&strings(&["a", "b"]));
    let steps = reconcile(&targets, &strings(&["b_a.txt"]));
    assert_eq!(
        steps,
        vec![
            Action::Rename("b_a.txt".to_string(), "a_b.txt".to_string()),
            Action::Create("a.txt".to_string()),
            Action::Create("b.txt".to_string()),
        ]
    );
}

#[test]
fn unmatched_local_file_is_deleted() {
    let targets = target_names(&strings(&["a", "b"]));
    let steps = reconcile(&targets, &strings(&["zzz.txt"]));
    assert_eq!(
        steps,
        vec![
            Action::Create("a.txt".to_string()),
            Action::Create("a_b.txt".to_string()),
            Action::Create("b.txt".to_string()),
            Action::Delete("zzz.txt".to_string()),
        ]
    );
}

#[test]
fn no_tokens_delete_every_local_file() {
    let steps = reconcile(&Vec::new(), &strings(&["a.txt", "b.txt"]));
    assert_eq!(
        steps,
        vec![Action::Delete("a.txt".to_string()), Action::Delete("b.txt".to_string())]
    );
}

#[test]
fn exact_match_wins_over_loose_match() {
    let targets = strings(&["a_b.txt"]);
    let steps = reconcile(&targets, &strings(&["b_a.txt", "a_b.txt"]));
    assert_eq!(steps, vec![Action::Delete("b_a.txt".to_string())]);
}

#[test]
fn first_free_local_name_is_taken() {
    let targets = strings(&["a_b.txt"]);
    let steps = reconcile(&targets, &strings(&["b.a_txt", "b_a.txt"]));
    assert_eq!(
        steps,
        vec![
            Action::Rename("b.a_txt".to_string(), "a_b.txt".to_string()),
            Action::Delete("b_a.txt".to_string()),
        ]
    );
}

#[test]
fn second_run_has_nothing_to_do() {
    let targets = target_names(&strings(&["a", "b", "c"]));
    let local = strings(&["c_b_a.txt", "b.txt", "junk.txt"]);
    let steps = reconcile(&targets, &local);
    let mut dir = local.clone();
    for step in &steps {
        match step {
            Action::Create(n) => dir.push(n.clone()),
            Action::Rename(a, b) => {
                dir.retain(|x| x != a);
                dir.push(b.clone());
            }
            Action::Delete(n) => dir.retain(|x| x != n),
        }
    }
    assert_eq!(sorted(dir.clone()), sorted(targets.clone()));
    assert!(reconcile(&targets, &dir).is_empty());
}

#[test]
fn loose_equality_ignores_order_of_fields() {
    assert!(is_same_file("a_b.txt", "b_a.txt"));
    assert!(is_same_file("a_b.txt", "txt.b_a"));
    assert!(!is_same_file("a_b.txt", "a_c.txt"));
}

#[test]
fn loose_equality_counts_repeated_fields() {
    assert!(!is_same_file("a_a.txt", "a.txt"));
    assert!(!is_same_file("a.txt", "a_a.txt"));
    assert!(is_same_file("a__b", "b__a"));
}

#[test]
fn loose_equality_is_symmetric() {
    let names = ["a.txt", "a_b.txt", "b_a.txt", "a_a.txt", "x", "", "_", "a.b_c"];
    for a in names.iter() {
        for b in names.iter() {
            assert_eq!(is_same_file(a, b), is_same_file(b, a));
        }
    }
}

#[test]
fn loose_equality_splits_on_both_breaks() {
    // without splitting, these two names differ
    assert!(is_same_file("a.b", "b_a"));
    assert!(!is_same_file("ab", "a_b"));
}
