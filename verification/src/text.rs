//! Verified text helpers.
//!
//! The object model renders every predicate and proposition into a hash
//! string; group hashes sort their member strings first.  This module gives
//! the string operations those renderings need, each pinned to a spec-level
//! definition over character sequences: equality, lexicographic order by
//! code point, joining with a separator, and insertion sort.

use vstd::prelude::*;

verus! {

/// Lexicographic order on character sequences, by code point.
pub open spec fn lex_le(a: Seq<char>, b: Seq<char>) -> bool
    decreases a.len(),
{
    if a.len() == 0 {
        true
    } else if b.len() == 0 {
        false
    } else if (a[0] as u32) < (b[0] as u32) {
        true
    } else if (a[0] as u32) > (b[0] as u32) {
        false
    } else {
        lex_le(a.drop_first(), b.drop_first())
    }
}

/// The views of a sequence of strings.
pub open spec fn views_of(s: Seq<String>) -> Seq<Seq<char>> {
    s.map_values(|t: String| t@)
}

/// Insertion of one sequence into a sorted sequence of sequences.
pub open spec fn insert_sorted(x: Seq<char>, s: Seq<Seq<char>>) -> Seq<Seq<char>>
    decreases s.len(),
{
    if s.len() == 0 {
        seq![x]
    } else if lex_le(x, s[0]) {
        seq![x] + s
    } else {
        seq![s[0]] + insert_sorted(x, s.drop_first())
    }
}

/// Insertion sort of a sequence of character sequences.
pub open spec fn sort_seqs(s: Seq<Seq<char>>) -> Seq<Seq<char>>
    decreases s.len(),
{
    if s.len() == 0 {
        Seq::empty()
    } else {
        insert_sorted(s[0], sort_seqs(s.drop_first()))
    }
}

/// Joining a sequence of parts with a separator.
pub open spec fn join_with(parts: Seq<Seq<char>>, sep: Seq<char>) -> Seq<char>
    decreases parts.len(),
{
    if parts.len() == 0 {
        Seq::empty()
    } else if parts.len() == 1 {
        parts[0]
    } else {
        parts[0] + sep + join_with(parts.drop_first(), sep)
    }
}

/// Character-for-character string equality.
pub fn str_eq(a: &str, b: &str) -> (r: bool)
    ensures
        r == (a@ == b@),
{
    let la = a.unicode_len();
    let lb = b.unicode_len();
    if la != lb {
        proof {
            assert(a@ != b@);
        }
        return false;
    }
    let mut i: usize = 0;
    while i < la
        invariant
            la == a@.len(),
            la == b@.len(),
            i <= la,
            forall|j: int| 0 <= j < i ==> a@[j] == b@[j],
        decreases la - i,
    {
        if a.get_char(i) != b.get_char(i) {
            return false;
        }
        i += 1;
    }
    proof {
        assert(a@ =~= b@);
    }
    true
}

/// `lex_le` restated from position `i`, with equal prefixes.
proof fn lemma_lex_le_step(a: Seq<char>, b: Seq<char>, i: int)
    requires
        0 <= i < a.len(),
        0 <= i < b.len(),
        a[i] == b[i],
    ensures
        lex_le(a.skip(i), b.skip(i)) == lex_le(a.skip(i + 1), b.skip(i + 1)),
{
    assert(a.skip(i).drop_first() =~= a.skip(i + 1));
    assert(b.skip(i).drop_first() =~= b.skip(i + 1));
    assert(a.skip(i)[0] == a[i]);
    assert(b.skip(i)[0] == b[i]);
}

/// Lexicographic order test on strings.
pub fn str_lex_le(a: &str, b: &str) -> (r: bool)
    ensures
        r == lex_le(a@, b@),
{
    let la = a.unicode_len();
    let lb = b.unicode_len();
    let mut i: usize = 0;
    proof {
        assert(a@.skip(0) =~= a@);
        assert(b@.skip(0) =~= b@);
    }
    loop
        invariant
            la == a@.len(),
            lb == b@.len(),
            i <= la,
            i <= lb,
            lex_le(a@, b@) == lex_le(a@.skip(i as int), b@.skip(i as int)),
        decreases la - i,
    {
        if i >= la {
            proof {
                assert(a@.skip(i as int).len() == 0);
            }
            return true;
        }
        if i >= lb {
            proof {
                assert(b@.skip(i as int).len() == 0);
                assert(a@.skip(i as int).len() > 0);
            }
            return false;
        }
        let ca = a.get_char(i);
        let cb = b.get_char(i);
        proof {
            assert(a@.skip(i as int)[0] == a@[i as int]);
            assert(b@.skip(i as int)[0] == b@[i as int]);
        }
        if (ca as u32) < (cb as u32) {
            return true;
        }
        if (ca as u32) > (cb as u32) {
            return false;
        }
        proof {
            lemma_lex_le_step(a@, b@, i as int);
        }
        i += 1;
    }
}

/// Where the scan stops, `insert_sorted` splits the sequence there.
proof fn lemma_insert_sorted_at(x: Seq<char>, s: Seq<Seq<char>>, k: int)
    requires
        0 <= k <= s.len(),
        forall|j: int| 0 <= j < k ==> !lex_le(x, s[j]),
        k < s.len() ==> lex_le(x, s[k]),
    ensures
        insert_sorted(x, s) == s.take(k) + seq![x] + s.skip(k),
    decreases s.len(),
{
    if s.len() == 0 {
        assert(insert_sorted(x, s) =~= s.take(k) + seq![x] + s.skip(k));
    } else if lex_le(x, s[0]) {
        assert(k == 0);
        assert(insert_sorted(x, s) =~= s.take(0) + seq![x] + s.skip(0));
    } else {
        assert(k >= 1);
        let rest = s.drop_first();
        assert(forall|j: int| 0 <= j < k - 1 ==> rest[j] == s[j + 1] && !lex_le(x, rest[j]));
        lemma_insert_sorted_at(x, rest, k - 1);
        assert(insert_sorted(x, s) == seq![s[0]] + (rest.take(k - 1) + seq![x] + rest.skip(k - 1)));
        assert(seq![s[0]] + (rest.take(k - 1) + seq![x] + rest.skip(k - 1)) =~= s.take(k) + seq![x]
            + s.skip(k));
    }
}

/// Inserts a string into a vector at the position `insert_sorted` gives.
pub fn insert_string_sorted(x: &String, v: Vec<String>) -> (r: Vec<String>)
    ensures
        views_of(r@) == insert_sorted(x@, views_of(v@)),
{
    let ghost sv = views_of(v@);
    let mut k: usize = 0;
    loop
        invariant
            sv == views_of(v@),
            k <= v.len(),
            sv.len() == v.len(),
            forall|j: int| 0 <= j < k ==> !lex_le(x@, sv[j]),
        ensures
            k <= v.len(),
            forall|j: int| 0 <= j < k ==> !lex_le(x@, sv[j]),
            k < v.len() ==> lex_le(x@, sv[k as int]),
        decreases v.len() - k,
    {
        if k == v.len() {
            break ;
        }
        proof {
            assert(sv[k as int] == v@[k as int]@);
        }
        if str_lex_le(x.as_str(), v[k].as_str()) {
            break ;
        }
        k += 1;
    }
    proof {
        lemma_insert_sorted_at(x@, sv, k as int);
    }
    let mut r = v;
    r.insert(k, x.clone());
    proof {
        assert(views_of(r@) =~= sv.take(k as int) + seq![x@] + sv.skip(k as int));
    }
    r
}

/// Sorts the strings of `v` from position `i` on, per `sort_seqs`.
pub fn sort_strings_from(v: &Vec<String>, i: usize) -> (r: Vec<String>)
    requires
        i <= v.len(),
    ensures
        views_of(r@) == sort_seqs(views_of(v@).skip(i as int)),
    decreases v.len() - i,
{
    if i == v.len() {
        let r: Vec<String> = Vec::new();
        proof {
            assert(views_of(v@).skip(i as int).len() == 0);
            assert(views_of(r@) =~= sort_seqs(views_of(v@).skip(i as int)));
        }
        r
    } else {
        let rest = sort_strings_from(v, i + 1);
        proof {
            assert(views_of(v@).skip(i as int).drop_first() =~= views_of(v@).skip(i as int + 1));
            assert(views_of(v@).skip(i as int)[0] == v@[i as int]@);
        }
        insert_string_sorted(&v[i], rest)
    }
}

/// Sorts a vector of strings by code-point order.
pub fn sort_strings(v: &Vec<String>) -> (r: Vec<String>)
    ensures
        views_of(r@) == sort_seqs(views_of(v@)),
{
    let r = sort_strings_from(v, 0);
    proof {
        assert(views_of(v@).skip(0) =~= views_of(v@));
    }
    r
}

/// Joining grows one part at a time from the right.
proof fn lemma_join_push(parts: Seq<Seq<char>>, sep: Seq<char>, x: Seq<char>)
    requires
        parts.len() >= 1,
    ensures
        join_with(parts.push(x), sep) == join_with(parts, sep) + sep + x,
    decreases parts.len(),
{
    if parts.len() == 1 {
        assert(parts.push(x).drop_first() =~= seq![x]);
        assert(parts.push(x).len() == 2);
        assert(parts.push(x)[0] == parts[0]);
        assert(join_with(seq![x], sep) == x);
        assert(join_with(parts.push(x), sep) == parts[0] + sep + x);
        assert(join_with(parts, sep) + sep + x =~= parts[0] + sep + x);
        assert(join_with(parts.push(x), sep) =~= join_with(parts, sep) + sep + x);
    } else {
        lemma_join_push(parts.drop_first(), sep, x);
        assert(parts.push(x).drop_first() =~= parts.drop_first().push(x));
        assert(join_with(parts.push(x), sep) == parts[0] + sep + join_with(
            parts.drop_first().push(x),
            sep,
        ));
        assert(parts[0] + sep + (join_with(parts.drop_first(), sep) + sep + x) =~= join_with(
            parts,
            sep,
        ) + sep + x);
    }
}

/// Joins strings with a separator, per `join_with`.
pub fn join_strings(v: &Vec<String>, sep: &str) -> (r: String)
    ensures
        r@ == join_with(views_of(v@), sep@),
{
    let mut r = String::new();
    if v.len() == 0 {
        proof {
            assert(r@ =~= join_with(views_of(v@), sep@));
        }
        return r;
    }
    r.append(v[0].as_str());
    let mut i: usize = 1;
    while i < v.len()
        invariant
            1 <= i <= v.len(),
            views_of(v@).len() == v.len(),
            r@ == join_with(views_of(v@).take(i as int), sep@),
        decreases v.len() - i,
    {
        let ghost before = views_of(v@).take(i as int);
        r.append(sep);
        r.append(v[i].as_str());
        proof {
            lemma_join_push(before, sep@, v@[i as int]@);
            assert(views_of(v@).take(i as int + 1) =~= before.push(v@[i as int]@));
        }
        i += 1;
    }
    proof {
        assert(views_of(v@).take(v@.len() as int) =~= views_of(v@));
    }
    r
}

} // verus!
