//! The target names that a token sequence generates.
use vstd::prelude::*;
use crate::fields::views_of;

verus! {

/// The separator between tokens of a name.
pub open spec fn separator() -> Seq<char> {
    seq!['_']
}

/// The extension of every managed file.
pub open spec fn extension() -> Seq<char> {
    seq!['.', 't', 'x', 't']
}

/// `tokens[i..=j]` joined by the separator.
pub open spec fn join_run(tokens: Seq<Seq<char>>, i: int, j: int) -> Seq<char>
    decreases j - i,
{
    if j <= i {
        tokens[i]
    } else {
        join_run(tokens, i, j - 1) + separator() + tokens[j]
    }
}

/// The file name made of the run `tokens[i..=j]`.
pub open spec fn target_name(tokens: Seq<Seq<char>>, i: int, j: int) -> Seq<char> {
    join_run(tokens, i, j) + extension()
}

/// Whether `name` is the file name of some run of consecutive tokens.
pub open spec fn is_target(tokens: Seq<Seq<char>>, name: Seq<char>) -> bool {
    exists|i: int, j: int|
        0 <= i <= j < tokens.len() && name == #[trigger] target_name(tokens, i, j)
}

/// The names of the runs that start at `i` and end before `j`, by end.
pub open spec fn row(tokens: Seq<Seq<char>>, i: int, j: int) -> Seq<Seq<char>> {
    Seq::new((j - i) as nat, |b: int| target_name(tokens, i, i + b))
}

/// The names of the runs that start before `i`, by start and then by end,
/// repeats included.
pub open spec fn rows_before(tokens: Seq<Seq<char>>, i: int) -> Seq<Seq<char>>
    decreases i,
{
    if i <= 0 {
        Seq::empty()
    } else {
        rows_before(tokens, i - 1) + row(tokens, i - 1, tokens.len() as int)
    }
}

/// `s` with every repeat of an earlier element left out.
pub open spec fn first_occurrences(s: Seq<Seq<char>>) -> Seq<Seq<char>>
    decreases s.len(),
{
    if s.len() == 0 {
        Seq::empty()
    } else {
        let d = first_occurrences(s.drop_last());
        if d.contains(s.last()) {
            d
        } else {
            d.push(s.last())
        }
    }
}

/// Whether `v` already holds `name`.
fn holds_name(v: &Vec<String>, name: &String) -> (r: bool)
    ensures
        r == views_of(v@).contains(name@),
{
    let mut k: usize = 0;
    while k < v.len()
        invariant
            k <= v.len(),
            forall|m: int| 0 <= m < k ==> views_of(v@)[m] != name@,
        decreases v.len() - k,
    {
        if v[k] == *name {
            assert(views_of(v@)[k as int] == name@);
            return true;
        }
        k = k + 1;
    }
    false
}

/// Every name made of a run of consecutive tokens, each once, in the order of
/// the run's start and then of its end. No tokens, no names.
pub fn target_names(tokens: &Vec<String>) -> (r: Vec<String>)
    ensures
        views_of(r@) == first_occurrences(rows_before(views_of(tokens@), tokens@.len() as int)),
        views_of(r@).no_duplicates(),
        forall|name: Seq<char>|
            views_of(r@).contains(name) <==> is_target(views_of(tokens@), name),
        tokens@.len() == 0 ==> r@.len() == 0,
{
    let ghost tv = views_of(tokens@);
    let sep = "_";
    let ext = ".txt";
    proof {
        reveal_strlit("_");
        reveal_strlit(".txt");
        assert(sep@ =~= separator());
        assert(ext@ =~= extension());
    }
    let mut names: Vec<String> = Vec::new();
    let n = tokens.len();
    let mut i: usize = 0;
    while i < n
        invariant
            n == tokens.len(),
            tv == views_of(tokens@),
            i <= n,
            sep@ == separator(),
            ext@ == extension(),
            views_of(names@).no_duplicates(),
            views_of(names@) == first_occurrences(rows_before(tv, i as int)),
            forall|name: Seq<char>| views_of(names@).contains(name) ==> is_target(tv, name),
            forall|a: int, b: int|
                0 <= a < i && a <= b < n ==> views_of(names@).contains(
                    #[trigger] target_name(tv, a, b),
                ),
        decreases n - i,
    {
        let mut accum = String::new();
        let mut j: usize = i;
        assert(rows_before(tv, i as int) + row(tv, i as int, i as int) =~= rows_before(tv, i as int));
        while j < n
            invariant
                n == tokens.len(),
                tv == views_of(tokens@),
                i <= j <= n,
                i < n,
                sep@ == separator(),
                ext@ == extension(),
                j > i ==> accum@ == join_run(tv, i as int, j - 1) + separator(),
                j == i ==> accum@ == Seq::<char>::empty(),
                views_of(names@).no_duplicates(),
                views_of(names@) == first_occurrences(
                    rows_before(tv, i as int) + row(tv, i as int, j as int),
                ),
                forall|name: Seq<char>| views_of(names@).contains(name) ==> is_target(tv, name),
                forall|a: int, b: int|
                    0 <= a < i && a <= b < n ==> views_of(names@).contains(
                        #[trigger] target_name(tv, a, b),
                    ),
                forall|b: int|
                    i <= b < j ==> views_of(names@).contains(
                        #[trigger] target_name(tv, i as int, b),
                    ),
            decreases n - j,
        {
            accum.append(tokens[j].as_str());
            proof {
                if j > i {
                    assert(accum@ =~= join_run(tv, i as int, j as int));
                } else {
                    assert(accum@ =~= join_run(tv, i as int, j as int));
                }
            }
            let name = accum.clone().concat(ext);
            assert(name@ == target_name(tv, i as int, j as int));
            let ghost seen = rows_before(tv, i as int) + row(tv, i as int, j as int);
            assert(rows_before(tv, i as int) + row(tv, i as int, j + 1) =~= seen.push(name@));
            assert(seen.push(name@).drop_last() =~= seen);
            if !holds_name(&names, &name) {
                let ghost before = views_of(names@);
                names.push(name);
                proof {
                    assert(views_of(names@) =~= before.push(name@));
                    assert forall|x: Seq<char>| views_of(names@).contains(x) implies is_target(
                        tv,
                        x,
                    ) by {
                        if x != name@ {
                            let m = choose|m: int| 0 <= m < views_of(names@).len() && views_of(names@)[m] == x;
                            assert(before[m] == x);
                        }
                    };
                    assert forall|a: int, b: int|
                        0 <= a < i && a <= b < n implies views_of(names@).contains(
                            #[trigger] target_name(tv, a, b),
                        ) by {
                        let m = choose|m: int| 0 <= m < before.len() && before[m] == target_name(tv, a, b);
                        assert(views_of(names@)[m] == target_name(tv, a, b));
                    };
                    assert forall|b: int|
                        i <= b <= j implies views_of(names@).contains(
                            #[trigger] target_name(tv, i as int, b),
                        ) by {
                        if b < j {
                            let m = choose|m: int| 0 <= m < before.len() && before[m] == target_name(tv, i as int, b);
                            assert(views_of(names@)[m] == target_name(tv, i as int, b));
                        } else {
                            assert(views_of(names@)[before.len() as int] == name@);
                        }
                    };
                }
            }
            accum.append(sep);
            j = j + 1;
        }
        assert(rows_before(tv, i + 1) == rows_before(tv, i as int) + row(tv, i as int, n as int));
        i = i + 1;
    }
    if n == 0 && names.len() > 0 {
        let ghost first = views_of(names@)[0];
        assert(views_of(names@).contains(first));
        assert(is_target(tv, first));
        assert(tv.len() == 0);
    }
    names
}

} // verus!
