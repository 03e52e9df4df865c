//! Paths as text: how they are ordered, and how they are written.

use vstd::prelude::*;

verus! {

/// Whether `a` stands before `b` in a dictionary of bytes, or is the same.
pub open spec fn bytes_le(a: Seq<u8>, b: Seq<u8>) -> bool
    decreases a.len(),
{
    if a.len() == 0 {
        true
    } else if b.len() == 0 {
        false
    } else if a[0] != b[0] {
        a[0] < b[0]
    } else {
        bytes_le(a.skip(1), b.skip(1))
    }
}

pub proof fn lemma_bytes_le_reflexive(a: Seq<u8>)
    ensures
        bytes_le(a, a),
    decreases a.len(),
{
    if a.len() > 0 {
        lemma_bytes_le_reflexive(a.skip(1));
    }
}

pub proof fn lemma_bytes_le_total(a: Seq<u8>, b: Seq<u8>)
    ensures
        bytes_le(a, b) || bytes_le(b, a),
    decreases a.len(),
{
    if a.len() > 0 && b.len() > 0 {
        lemma_bytes_le_total(a.skip(1), b.skip(1));
    }
}

pub proof fn lemma_bytes_le_transitive(a: Seq<u8>, b: Seq<u8>, c: Seq<u8>)
    requires
        bytes_le(a, b),
        bytes_le(b, c),
    ensures
        bytes_le(a, c),
    decreases a.len(),
{
    if a.len() > 0 && a[0] == b[0] && b[0] == c[0] {
        lemma_bytes_le_transitive(a.skip(1), b.skip(1), c.skip(1));
    }
}

/// Two runs of bytes stand in the order of a dictionary exactly where the first ends within what
/// they have in common, or has the smaller byte where they first differ.
pub proof fn law_dictionary_order(a: Seq<u8>, b: Seq<u8>) -> (n: int)
    ensures
        0 <= n <= a.len(),
        n <= b.len(),
        a.take(n) == b.take(n),
        n == a.len() || n == b.len() || a[n] != b[n],
        bytes_le(a, b) <==> n == a.len() || n < b.len() && a[n] < b[n],
    decreases a.len(),
{
    if a.len() == 0 || b.len() == 0 || a[0] != b[0] {
        assert(a.take(0) =~= b.take(0));
        0
    } else {
        let n = law_dictionary_order(a.skip(1), b.skip(1));
        assert(a.take(n + 1) =~= seq![a[0]] + a.skip(1).take(n));
        assert(b.take(n + 1) =~= seq![b[0]] + b.skip(1).take(n));
        n + 1
    }
}

/// Whether `a` stands before `b` in a dictionary of bytes, or is the same.
pub fn is_before(a: &[u8], b: &[u8]) -> (res: bool)
    ensures
        res == bytes_le(a@, b@),
{
    let mut i: usize = 0;
    assert(a@.skip(0) =~= a@);
    assert(b@.skip(0) =~= b@);
    while i < a.len() && i < b.len()
        invariant
            i <= a@.len(),
            i <= b@.len(),
            bytes_le(a@, b@) == bytes_le(a@.skip(i as int), b@.skip(i as int)),
        decreases a@.len() - i,
    {
        if a[i] != b[i] {
            return a[i] < b[i];
        }
        assert(a@.skip(i as int).skip(1) =~= a@.skip(i + 1));
        assert(b@.skip(i as int).skip(1) =~= b@.skip(i + 1));
        i = i + 1;
    }
    i == a.len()
}

/// The same text with every backslash turned into a slash.
pub open spec fn with_slashes(path: Seq<char>) -> Seq<char> {
    Seq::new(
        path.len(),
        |i: int|
            if path[i] == '\\' {
                '/'
            } else {
                path[i]
            },
    )
}

/// Turns every backslash into a slash.
pub fn replace_backslashes(path: &str) -> (res: String)
    ensures
        res@ == with_slashes(path@),
{
    let size: usize = path.unicode_len();
    let mut res: String = String::new();
    let mut i: usize = 0;
    proof {
        reveal_strlit("/");
        assert(res@ =~= with_slashes(path@).take(0));
    }
    while i < size
        invariant
            i <= size == path@.len(),
            "/"@ == seq!['/'],
            res@ == with_slashes(path@).take(i as int),
        decreases size - i,
    {
        let ghost before = res@;
        if path.get_char(i) == '\\' {
            res.append("/");
        } else {
            res.append(path.substring_char(i, i + 1));
        }
        assert(res@ =~= before.push(with_slashes(path@)[i as int]));
        assert(with_slashes(path@).take(i + 1) =~= before.push(with_slashes(path@)[i as int]));
        i = i + 1;
    }
    assert(with_slashes(path@).take(i as int) =~= with_slashes(path@));
    res
}

/// Whether two texts are the same.
pub fn same_text(a: &str, b: &str) -> (res: bool)
    ensures
        res == (a@ == b@),
{
    let left: String = a.to_owned();
    let right: String = b.to_owned();
    left == right
}

} // verus!
