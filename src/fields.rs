//! Splitting a file name into its fields, and the loose equality of two names
//! that hold the same fields in any order.
use vstd::prelude::*;
use vstd::multiset::Multiset;
use vstd::seq_lib::lemma_multiset_commutative;

verus! {

/// A character that ends a field: the name separator or a period.
pub open spec fn is_field_break(c: char) -> bool {
    c == '.' || c == '_'
}

/// The fields of a name: the runs between field breaks, in order, empty runs
/// included. A name with `b` field breaks has `b + 1` fields.
pub open spec fn fields_of(s: Seq<char>) -> Seq<Seq<char>>
    decreases s.len(),
{
    if s.len() == 0 {
        seq![Seq::empty()]
    } else {
        let f = fields_of(s.drop_last());
        if is_field_break(s.last()) {
            f.push(Seq::empty())
        } else {
            f.update(f.len() - 1, f.last().push(s.last()))
        }
    }
}

/// Two names stand for the same file when they hold the same fields, each as
/// many times, in whatever order.
pub open spec fn same_file(a: Seq<char>, b: Seq<char>) -> bool {
    fields_of(a).to_multiset() == fields_of(b).to_multiset()
}

/// The character sequences of a list of strings.
pub open spec fn views_of(v: Seq<String>) -> Seq<Seq<char>> {
    v.map_values(|s: String| s@)
}

/// The loose equality is symmetric: it compares two multisets of fields.
pub proof fn lemma_same_file_symmetric(a: Seq<char>, b: Seq<char>)
    ensures
        same_file(a, b) == same_file(b, a),
{
}

/// Relies on regex::Regex::new and regex::Regex::split: with the class
/// `[._]` the pieces are the text between consecutive matches, from the
/// start to the end of the haystack, empty pieces kept.
#[verifier::external_body]
fn split_fields(pattern: &str, name: &str) -> (r: Vec<String>)
    requires
        pattern@ == seq!['[', '.', '_', ']'],
    ensures
        views_of(r@) == fields_of(name@),
{
    let re = regex::Regex::new(pattern).expect("a valid character class");
    re.split(name).map(String::from).collect()
}

/// Whether `a` and `b` hold the same strings, each as many times.
fn same_multiset(a: &Vec<String>, b: Vec<String>) -> (r: bool)
    ensures
        r == (views_of(a@).to_multiset() == views_of(b@).to_multiset()),
{
    let ghost va = views_of(a@);
    let ghost vb = views_of(b@);
    let mut rest: Vec<String> = b;
    proof {
        assert(views_of(rest@) =~= vb);
        assert(va.take(0) =~= Seq::<Seq<char>>::empty());
        va.take(0).to_multiset_ensures();
        assert(views_of(rest@).to_multiset().add(va.take(0).to_multiset())
            =~= vb.to_multiset());
    }
    let mut i: usize = 0;
    while i < a.len()
        invariant
            i <= a.len(),
            va == views_of(a@),
            vb == views_of(b@),
            views_of(rest@).to_multiset().add(va.take(i as int).to_multiset()) == vb.to_multiset(),
        decreases a.len() - i,
    {
        let mut k: usize = 0;
        while k < rest.len() && rest[k] != a[i]
            invariant
                k <= rest.len(),
                i < a.len(),
                va == views_of(a@),
                forall|m: int| 0 <= m < k ==> views_of(rest@)[m] != va[i as int],
            decreases rest.len() - k,
        {
            k = k + 1;
        }
        let ghost x = va[i as int];
        if k == rest.len() {
            proof {
                assert(!views_of(rest@).contains(x));
                views_of(rest@).to_multiset_ensures();
                assert(va =~= va.take(i as int) + va.skip(i as int));
                lemma_multiset_commutative(va.take(i as int), va.skip(i as int));
                va.skip(i as int).to_multiset_ensures();
                assert(va.skip(i as int)[0] == x);
                assert(va.skip(i as int).contains(x));
                assert(va.to_multiset().count(x) > va.take(i as int).to_multiset().count(x));
                assert(vb.to_multiset().count(x) == va.take(i as int).to_multiset().count(x));
            }
            return false;
        }
        let ghost before = views_of(rest@);
        rest.remove(k);
        proof {
            assert(views_of(rest@) =~= before.remove(k as int));
            before.to_multiset_ensures();
            assert(before[k as int] == x);
            assert(va.take(i as int + 1) =~= va.take(i as int).push(x));
            va.take(i as int).to_multiset_ensures();
            assert(views_of(rest@).to_multiset().add(va.take(i as int + 1).to_multiset())
                =~= before.to_multiset().add(va.take(i as int).to_multiset()));
        }
        i = i + 1;
    }
    proof {
        assert(va.take(i as int) =~= va);
        views_of(rest@).to_multiset_ensures();
        if rest.len() > 0 {
            assert(views_of(rest@).to_multiset().len() > 0);
            assert(vb.to_multiset().len() > va.to_multiset().len());
        } else {
            assert(views_of(rest@).to_multiset() =~= Multiset::empty());
            assert(vb.to_multiset() =~= va.to_multiset());
        }
    }
    rest.len() == 0
}

/// Whether the two names hold the same fields, each as many times.
pub fn is_same_file(remote_file: &str, local_file: &str) -> (r: bool)
    ensures
        r == same_file(remote_file@, local_file@),
{
    let pattern = "[._]";
    proof {
        reveal_strlit("[._]");
        assert(pattern@ =~= seq!['[', '.', '_', ']']);
    }
    let remote_fields = split_fields(pattern, remote_file);
    let local_fields = split_fields(pattern, local_file);
    same_multiset(&remote_fields, local_fields)
}

} // verus!
