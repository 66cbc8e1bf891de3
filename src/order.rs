//! Case-insensitive ordering of note titles: ASCII letters compare without
//! regard to case, every other character by its code point.
use vstd::prelude::*;
use vstd::string::*;
use vstd::multiset::Multiset;
use crate::model::Note;

verus! {

broadcast use vstd::seq_lib::group_to_multiset_ensures;

/// The character with ASCII upper case folded to lower case.
pub open spec fn fold_char(c: char) -> u32 {
    if 'A' <= c && c <= 'Z' {
        ((c as u32) + 32) as u32
    } else {
        c as u32
    }
}

/// `a` sorts no later than `b` when compared character by character after folding.
pub open spec fn title_le(a: Seq<char>, b: Seq<char>) -> bool
    decreases a.len(),
{
    if a.len() == 0 {
        true
    } else if b.len() == 0 {
        false
    } else if fold_char(a[0]) != fold_char(b[0]) {
        fold_char(a[0]) < fold_char(b[0])
    } else {
        title_le(a.drop_first(), b.drop_first())
    }
}

/// Notes listed by title, case-insensitively.
pub open spec fn sorted_by_title(s: Seq<Note>) -> bool {
    forall|i: int, j: int| 0 <= i < j < s.len() ==> title_le(s[i].title@, s[j].title@)
}

pub proof fn lemma_title_le_total(a: Seq<char>, b: Seq<char>)
    ensures
        title_le(a, b) || title_le(b, a),
    decreases a.len(),
{
    if a.len() > 0 && b.len() > 0 && fold_char(a[0]) == fold_char(b[0]) {
        lemma_title_le_total(a.drop_first(), b.drop_first());
    }
}

pub proof fn lemma_title_le_transitive(a: Seq<char>, b: Seq<char>, c: Seq<char>)
    requires
        title_le(a, b),
        title_le(b, c),
    ensures
        title_le(a, c),
    decreases a.len(),
{
    if a.len() > 0 && b.len() > 0 && c.len() > 0 && fold_char(a[0]) == fold_char(b[0])
        && fold_char(b[0]) == fold_char(c[0]) {
        lemma_title_le_transitive(a.drop_first(), b.drop_first(), c.drop_first());
    }
}

fn fold_exec(c: char) -> (r: u32)
    ensures
        r == fold_char(c),
{
    if 'A' <= c && c <= 'Z' {
        (c as u32) + 32
    } else {
        c as u32
    }
}

/// Whether title `a` sorts no later than title `b`.
pub fn title_in_order(a: &String, b: &String) -> (r: bool)
    ensures
        r == title_le(a@, b@),
{
    let a_str = a.as_str();
    let b_str = b.as_str();
    let la = a_str.unicode_len();
    let lb = b_str.unicode_len();
    let mut i: usize = 0;
    assert(a@.skip(0) =~= a@);
    assert(b@.skip(0) =~= b@);
    while i < la && i < lb
        invariant
            la == a@.len(),
            lb == b@.len(),
            a_str@ == a@,
            b_str@ == b@,
            i <= la,
            i <= lb,
            title_le(a@, b@) == title_le(a@.skip(i as int), b@.skip(i as int)),
        decreases la - i,
    {
        let ca = fold_exec(a_str.get_char(i));
        let cb = fold_exec(b_str.get_char(i));
        assert(a@.skip(i as int)[0] == a@[i as int]);
        assert(b@.skip(i as int)[0] == b@[i as int]);
        if ca != cb {
            return ca < cb;
        }
        assert(a@.skip(i as int).drop_first() =~= a@.skip(i + 1));
        assert(b@.skip(i as int).drop_first() =~= b@.skip(i + 1));
        i = i + 1;
    }
    assert(a@.skip(i as int).len() == la - i);
    assert(b@.skip(i as int).len() == lb - i);
    i == la
}

/// Inserts `x` into `v`, which is in title order, after every note that sorts
/// no later than it.
fn insert_by_title(v: &mut Vec<Note>, x: Note)
    requires
        sorted_by_title(old(v)@),
    ensures
        sorted_by_title(final(v)@),
        final(v)@.to_multiset() == old(v)@.to_multiset().insert(x),
{
    let mut k: usize = v.len();
    while k > 0 && title_in_order(&x.title, &v[k - 1].title) && !title_in_order(&v[k - 1].title, &x.title)
        invariant
            k <= v.len(),
            v@ == old(v)@,
            sorted_by_title(v@),
            forall|j: int| k <= j < v.len() ==> !title_le(v@[j].title@, x.title@),
        decreases k,
    {
        k = k - 1;
    }
    // every note before position k sorts no later than x
    proof {
        if k > 0 {
            lemma_title_le_total(x.title@, v@[k - 1].title@);
            assert forall|j: int| 0 <= j < k implies title_le(v@[j].title@, x.title@) by {
                if j < k - 1 {
                    lemma_title_le_transitive(v@[j].title@, v@[k - 1].title@, x.title@);
                }
            }
        }
        assert forall|j: int| k <= j < v@.len() implies title_le(x.title@, v@[j].title@) by {
            lemma_title_le_total(x.title@, v@[j].title@);
        }
    }
    let ghost pre = v@;
    v.insert(k, x);
    proof {
        let s = v@;
        assert(s =~= pre.take(k as int).push(x) + pre.skip(k as int));
        assert(pre =~= pre.take(k as int) + pre.skip(k as int));
        vstd::seq_lib::lemma_multiset_commutative(pre.take(k as int).push(x), pre.skip(k as int));
        vstd::seq_lib::lemma_multiset_commutative(pre.take(k as int), pre.skip(k as int));
        assert(s.to_multiset() =~= pre.to_multiset().insert(x));
        assert forall|i: int, j: int| 0 <= i < j < s.len() implies title_le(s[i].title@, s[j].title@) by {
            if j < k {
                assert(s[i] == pre[i] && s[j] == pre[j]);
            } else if j == k {
                assert(s[i] == pre[i]);
            } else if i == k {
                assert(s[j] == pre[j - 1]);
            } else if i < k {
                assert(s[i] == pre[i] && s[j] == pre[j - 1]);
            } else {
                assert(s[i] == pre[i - 1] && s[j] == pre[j - 1]);
            }
        }
    }
}

/// The notes of `v` in title order; notes with equal titles keep their
/// relative order.
pub fn sort_by_title(v: Vec<Note>) -> (r: Vec<Note>)
    ensures
        sorted_by_title(r@),
        r@.to_multiset() == v@.to_multiset(),
{
    let mut r: Vec<Note> = Vec::new();
    let mut rest = v;
    let ghost orig = rest@;
    // take notes from the back so that each removal is cheap
    let mut taken: Vec<Note> = Vec::new();
    while rest.len() > 0
        invariant
            orig.to_multiset() == rest@.to_multiset().add(taken@.to_multiset()),
        decreases rest.len(),
    {
        let ghost before = rest@;
        let x = rest.pop().unwrap();
        assert(before =~= rest@.push(x));
        let ghost tb = taken@;
        taken.push(x);
        assert(rest@.push(x).to_multiset() =~= rest@.to_multiset().insert(x));
        assert(taken@.to_multiset() =~= tb.to_multiset().insert(x));
        assert(orig.to_multiset() =~= rest@.to_multiset().add(taken@.to_multiset()));
    }
    assert(rest@.to_multiset() =~= Multiset::<Note>::empty());
    assert(orig.to_multiset() =~= taken@.to_multiset());
    // taken holds the notes in reverse; inserting from its back keeps ties stable
    while taken.len() > 0
        invariant
            sorted_by_title(r@),
            orig.to_multiset() == r@.to_multiset().add(taken@.to_multiset()),
        decreases taken.len(),
    {
        let ghost before = taken@;
        let ghost rb = r@;
        let x = taken.pop().unwrap();
        assert(before =~= taken@.push(x));
        insert_by_title(&mut r, x);
        assert(orig.to_multiset() =~= r@.to_multiset().add(taken@.to_multiset()));
    }
    assert(taken@.to_multiset() =~= Multiset::<Note>::empty());
    assert(orig.to_multiset() =~= r@.to_multiset());
    r
}

} // verus!
