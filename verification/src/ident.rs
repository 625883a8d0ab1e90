//! Identifier sanitization and uniquification.
//!
//! `sanitize_identifier` turns a raw name into a stable token by replacing
//! whitespace with underscores; it is total and idempotent. `uniquify` resolves
//! collisions against an existing identifier set by appending `_2`, `_3`, …
//! until a free token is found, and `uniquify_all` applies that pass over a
//! whole sequence, which yields pairwise distinct identifiers and leaves an
//! already-distinct sequence unchanged.

use vstd::prelude::*;

use crate::text::contains_str;
use crate::text::is_space_char;
use crate::text::views;

verus! {

/// What sanitization does to one character: whitespace becomes an
/// underscore, everything else passes through.
pub open spec fn sanitize_char(c: char) -> char {
    if is_space_char(c) {
        '_'
    } else {
        c
    }
}

/// The sanitized form of a raw name: every whitespace character (space,
/// tab, newline, carriage return) becomes an underscore, nothing else
/// changes. Total: defined for every input, including the empty sequence.
pub open spec fn sanitize_spec(s: Seq<char>) -> Seq<char> {
    s.map_values(|c: char| sanitize_char(c))
}

/// Replaces each whitespace character in `text` with an underscore.
pub fn sanitize_identifier(text: &str) -> (r: String)
    ensures
        r@ == sanitize_spec(text@),
{
    let len = text.unicode_len();
    let mut out = String::new();
    let mut i: usize = 0;
    while i < len
        invariant
            i <= len,
            len == text@.len(),
            out@ == sanitize_spec(text@.take(i as int)),
        decreases len - i,
    {
        let c = text.get_char(i);
        if c == ' ' || c == '\t' || c == '\n' || c == '\r' {
            out.push('_');
        } else {
            out.push(c);
        }
        assert(out@ =~= sanitize_spec(text@.take(i + 1))) by {
            assert(text@.take(i + 1).map_values(|ch: char| sanitize_char(ch)).len() == i + 1);
        }
        i += 1;
    }
    assert(text@.take(len as int) == text@);
    out
}

/// Sanitization is idempotent: a sanitized name passes through unchanged.
pub proof fn lemma_sanitize_idempotent(s: Seq<char>)
    ensures
        sanitize_spec(sanitize_spec(s)) == sanitize_spec(s),
{
    assert(sanitize_spec(sanitize_spec(s)) =~= sanitize_spec(s)) by {
        assert forall|i: int| 0 <= i < s.len() implies sanitize_char(sanitize_char(s[i]))
            == sanitize_char(s[i]) by {
        }
    }
}

/// The character for a single decimal digit.
pub open spec fn dec_digit(d: nat) -> char {
    (((48 + d) as u8) as char)
}

/// The decimal representation of a natural number, most significant
/// digit first.
pub open spec fn dec_rep(n: nat) -> Seq<char>
    decreases n,
{
    if n < 10 {
        seq![dec_digit(n)]
    } else {
        dec_rep(n / 10).push(dec_digit(n % 10))
    }
}

proof fn lemma_dec_rep_len(n: nat)
    ensures
        dec_rep(n).len() >= 1,
        n >= 10 ==> dec_rep(n).len() >= 2,
    decreases n,
{
    if n >= 10 {
        lemma_dec_rep_len(n / 10);
    }
}

proof fn lemma_dec_digit_injective(a: nat, b: nat)
    requires
        a < 10,
        b < 10,
        dec_digit(a) == dec_digit(b),
    ensures
        a == b,
{
    assert(dec_digit(a) as u8 == 48 + a);
    assert(dec_digit(b) as u8 == 48 + b);
}

/// Distinct numbers have distinct decimal representations.
proof fn lemma_dec_rep_injective(a: nat, b: nat)
    requires
        dec_rep(a) == dec_rep(b),
    ensures
        a == b,
    decreases a,
{
    if a < 10 && b < 10 {
        assert(dec_rep(a)[0] == dec_digit(a));
        assert(dec_rep(b)[0] == dec_digit(b));
        lemma_dec_digit_injective(a, b);
    } else if a < 10 {
        lemma_dec_rep_len(b / 10);
        assert(dec_rep(a).len() == 1);
        assert(dec_rep(b).len() >= 2);
    } else if b < 10 {
        lemma_dec_rep_len(a / 10);
        assert(dec_rep(a).len() >= 2);
        assert(dec_rep(b).len() == 1);
    } else {
        let sa = dec_rep(a / 10);
        let sb = dec_rep(b / 10);
        let last = sa.len() as int;
        assert(sa.push(dec_digit(a % 10)).len() == sb.push(dec_digit(b % 10)).len());
        assert(sa.len() == sb.len());
        assert(sa.push(dec_digit(a % 10))[last] == dec_digit(a % 10));
        assert(sb.push(dec_digit(b % 10))[last] == dec_digit(b % 10));
        lemma_dec_digit_injective(a % 10, b % 10);
        assert(sa =~= sb) by {
            assert forall|i: int| 0 <= i < sa.len() implies sa[i] == sb[i] by {
                assert(sa.push(dec_digit(a % 10))[i] == sa[i]);
                assert(sb.push(dec_digit(b % 10))[i] == sb[i]);
            }
        }
        lemma_dec_rep_injective(a / 10, b / 10);
    }
}

fn dec_digit_exec(d: u64) -> (r: char)
    requires
        d < 10,
    ensures
        r == dec_digit(d as nat),
{
    ((48 + d) as u8) as char
}

/// Renders a number in decimal.
pub fn u64_to_dec(n: u64) -> (r: String)
    ensures
        r@ == dec_rep(n as nat),
    decreases n,
{
    if n < 10 {
        let mut s = String::new();
        s.push(dec_digit_exec(n));
        assert(s@ =~= dec_rep(n as nat));
        s
    } else {
        let mut s = u64_to_dec(n / 10);
        s.push(dec_digit_exec(n % 10));
        s
    }
}

/// The k-th candidate identifier for a base name: the base itself first,
/// then `base_2`, `base_3`, …
pub open spec fn cand(base: Seq<char>, k: nat) -> Seq<char> {
    if k <= 1 {
        base
    } else {
        base + seq!['_'] + dec_rep(k)
    }
}

/// For a fixed base, distinct candidate numbers give distinct candidates.
proof fn lemma_cand_injective(base: Seq<char>, j: nat, k: nat)
    requires
        1 <= j,
        1 <= k,
        cand(base, j) == cand(base, k),
    ensures
        j == k,
{
    lemma_dec_rep_len(j);
    lemma_dec_rep_len(k);
    if j <= 1 && k <= 1 {
    } else if j <= 1 {
        assert(cand(base, k).len() >= base.len() + 2);
    } else if k <= 1 {
        assert(cand(base, j).len() >= base.len() + 2);
    } else {
        let off = base.len() + 1;
        assert(cand(base, j).len() == base.len() + 1 + dec_rep(j).len());
        assert(cand(base, k).len() == base.len() + 1 + dec_rep(k).len());
        assert(dec_rep(j).len() == dec_rep(k).len());
        assert(dec_rep(j) =~= dec_rep(k)) by {
            assert forall|i: int| 0 <= i < dec_rep(j).len() implies dec_rep(j)[i]
                == dec_rep(k)[i] by {
                assert(cand(base, j)[off + i] == dec_rep(j)[i]);
                assert(cand(base, k)[off + i] == dec_rep(k)[i]);
            }
        }
        lemma_dec_rep_injective(j, k);
    }
}

/// Whether the k-th candidate is the first one not yet used.
pub open spec fn is_free_at(base: Seq<char>, used: Seq<Seq<char>>, k: nat) -> bool {
    &&& !used.contains(cand(base, k))
    &&& forall|j: nat| 1 <= j < k ==> used.contains(cand(base, j))
}

/// Whether `r` is the first candidate for `base` that does not collide
/// with `used`: the base itself when it is free, else the first free of
/// `base_2`, `base_3`, …
pub open spec fn is_first_free(base: Seq<char>, used: Seq<Seq<char>>, r: Seq<char>) -> bool {
    exists|k: nat| 1 <= k && #[trigger] is_free_at(base, used, k) && r == cand(base, k)
}

/// The first free candidate is unique: the relation pins the result down.
pub proof fn lemma_first_free_unique(
    base: Seq<char>,
    used: Seq<Seq<char>>,
    r1: Seq<char>,
    r2: Seq<char>,
)
    requires
        is_first_free(base, used, r1),
        is_first_free(base, used, r2),
    ensures
        r1 == r2,
{
    let k1 = choose|k: nat| 1 <= k && #[trigger] is_free_at(base, used, k) && r1 == cand(base, k);
    let k2 = choose|k: nat| 1 <= k && #[trigger] is_free_at(base, used, k) && r2 == cand(base, k);
    if k1 < k2 {
        assert(used.contains(cand(base, k1)));
    } else if k2 < k1 {
        assert(used.contains(cand(base, k2)));
    }
}

/// The first free candidate is never one of the used names.
pub proof fn lemma_first_free_not_used(base: Seq<char>, used: Seq<Seq<char>>, r: Seq<char>)
    requires
        is_first_free(base, used, r),
    ensures
        !used.contains(r),
{
    let k = choose|k: nat| 1 <= k && #[trigger] is_free_at(base, used, k) && r == cand(base, k);
    assert(!used.contains(cand(base, k)));
}

/// Appending an element that does not yet occur keeps a sequence free of
/// duplicates.
pub proof fn lemma_no_dup_push<A>(s: Seq<A>, x: A)
    requires
        s.no_duplicates(),
        !s.contains(x),
    ensures
        s.push(x).no_duplicates(),
{
    assert forall|p: int, q: int|
        0 <= p < s.push(x).len() && 0 <= q < s.push(x).len() && p != q implies s.push(x)[p]
        != s.push(x)[q] by {
        if p < s.len() && q < s.len() {
        } else if p == s.len() && q < s.len() {
            assert(s.contains(s[q]));
        } else if q == s.len() && p < s.len() {
            assert(s.contains(s[p]));
        }
    }
}

/// Uniquification never produces an empty identifier from a non-empty
/// base: every candidate contains the base.
pub proof fn lemma_first_free_nonempty(base: Seq<char>, used: Seq<Seq<char>>, r: Seq<char>)
    requires
        is_first_free(base, used, r),
        base.len() > 0,
    ensures
        r.len() > 0,
{
    let k = choose|k: nat| 1 <= k && #[trigger] is_free_at(base, used, k) && r == cand(base, k);
    if k > 1 {
        lemma_dec_rep_len(k);
    }
}

/// When the base itself is free, it is the first free candidate.
pub proof fn lemma_first_free_base(base: Seq<char>, used: Seq<Seq<char>>, r: Seq<char>)
    requires
        is_first_free(base, used, r),
        !used.contains(base),
    ensures
        r == base,
{
    assert(cand(base, 1) == base);
    assert(is_free_at(base, used, 1));
    lemma_first_free_unique(base, used, r, base);
}

/// If the first k candidates are all in `used`, then `used` holds at least
/// k strings: the candidates are pairwise distinct.
proof fn lemma_tried_bound(base: Seq<char>, used: Seq<Seq<char>>, k: nat)
    requires
        forall|j: nat| 1 <= j <= k ==> used.contains(cand(base, j)),
    ensures
        k <= used.len(),
{
    let cands = Seq::new(k, |i: int| cand(base, (i + 1) as nat));
    assert(cands.no_duplicates()) by {
        assert forall|p: int, q: int|
            0 <= p < cands.len() && 0 <= q < cands.len() && p != q implies cands[p]
            != cands[q] by {
            if cands[p] == cands[q] {
                lemma_cand_injective(base, (p + 1) as nat, (q + 1) as nat);
            }
        }
    }
    cands.unique_seq_to_set();
    used.lemma_cardinality_of_set();
    assert(cands.to_set().subset_of(used.to_set())) by {
        assert forall|x: Seq<char>| cands.to_set().contains(x) implies used.to_set().contains(
            x,
        ) by {
            let i = choose|i: int| 0 <= i < cands.len() && cands[i] == x;
            assert(used.contains(cand(base, (i + 1) as nat)));
        }
    }
    vstd::set_lib::lemma_len_subset(cands.to_set(), used.to_set());
}

fn cand_exec(base: &str, k: u64) -> (r: String)
    ensures
        r@ == cand(base@, k as nat),
{
    if k <= 1 {
        base.to_owned()
    } else {
        let mut s = base.to_owned();
        s.push('_');
        let digits = u64_to_dec(k);
        s.append(digits.as_str());
        assert(s@ =~= base@ + seq!['_'] + dec_rep(k as nat));
        s
    }
}

/// Picks the first candidate derived from `base` that does not occur in
/// `existing`: `base` itself if unused, else `base_2`, `base_3`, …
/// Deterministic for a given base and existing set.
pub fn uniquify(base: &str, existing: &Vec<String>) -> (r: String)
    requires
        existing@.len() < usize::MAX,
    ensures
        is_first_free(base@, views(existing@), r@),
{
    let used_len = existing.len();
    let mut k: u64 = 1;
    let mut candidate: String = base.to_owned();
    loop
        invariant
            1 <= k,
            k <= used_len + 1,
            used_len == existing@.len(),
            used_len < usize::MAX,
            candidate@ == cand(base@, k as nat),
            forall|j: nat| 1 <= j < k ==> views(existing@).contains(cand(base@, j)),
        decreases used_len + 1 - k,
    {
        if !contains_str(existing, candidate.as_str()) {
            assert(is_free_at(base@, views(existing@), k as nat));
            return candidate;
        }
        proof {
            assert(forall|j: nat| 1 <= j <= k ==> views(existing@).contains(cand(base@, j)));
            lemma_tried_bound(base@, views(existing@), k as nat);
            assert(views(existing@).len() == existing@.len());
            assert(k < usize::MAX as u64);
        }
        k = k + 1;
        candidate = cand_exec(base, k);
    }
}

/// Applies `uniquify` to each name in order, each against the names already
/// chosen. The results are pairwise distinct, and a sequence of names that
/// is already pairwise distinct passes through unchanged — so running the
/// pass a second time is a no-op.
pub fn uniquify_all(bases: &Vec<String>) -> (r: Vec<String>)
    ensures
        r@.len() == bases@.len(),
        forall|i: int|
            0 <= i < r@.len() ==> is_first_free(bases@[i]@, views(r@.take(i)), r@[i]@),
        views(r@).no_duplicates(),
        views(bases@).no_duplicates() ==> views(r@) == views(bases@),
{
    let n = bases.len();
    let mut out: Vec<String> = Vec::new();
    let mut i: usize = 0;
    while i < n
        invariant
            i <= n,
            n == bases@.len(),
            out@.len() == i,
            forall|j: int|
                0 <= j < i ==> is_first_free(bases@[j]@, views(out@.take(j)), out@[j]@),
            views(out@).no_duplicates(),
            views(bases@).no_duplicates() ==> views(out@) == views(bases@).take(i as int),
        decreases n - i,
    {
        let ghost old_out = out@;
        let u = uniquify(bases[i].as_str(), &out);
        out.push(u);
        proof {
            assert(out@.take(i as int) =~= old_out);
            assert(views(out@.take(i as int)) =~= views(old_out));
            assert forall|j: int|
                0 <= j < i + 1 implies is_first_free(
                bases@[j]@,
                views(out@.take(j)),
                out@[j]@,
            ) by {
                assert(out@.take(j) =~= old_out.take(j));
                if j < i {
                    assert(is_first_free(bases@[j]@, views(old_out.take(j)), old_out[j]@));
                    assert(out@[j] == old_out[j]);
                } else {
                    assert(views(out@.take(i as int)) == views(old_out));
                }
            }
            assert(views(out@).no_duplicates()) by {
                let k = choose|k: nat|
                    1 <= k && #[trigger] is_free_at(bases@[i as int]@, views(old_out), k)
                        && u@ == cand(bases@[i as int]@, k);
                assert(!views(old_out).contains(u@));
                assert forall|p: int, q: int|
                    0 <= p < views(out@).len() && 0 <= q < views(out@).len() && p != q implies
                    views(out@)[p] != views(out@)[q] by {
                    if p < i && q < i {
                        assert(views(old_out)[p] == views(out@)[p]);
                        assert(views(old_out)[q] == views(out@)[q]);
                    } else if p == i && q < i {
                        assert(views(out@)[q] == views(old_out)[q]);
                        assert(views(old_out).contains(views(old_out)[q]));
                    } else if q == i && p < i {
                        assert(views(out@)[p] == views(old_out)[p]);
                        assert(views(old_out).contains(views(old_out)[p]));
                    }
                }
            }
            if views(bases@).no_duplicates() {
                assert(views(old_out) == views(bases@).take(i as int));
                assert(!views(bases@).take(i as int).contains(bases@[i as int]@)) by {
                    if views(bases@).take(i as int).contains(bases@[i as int]@) {
                        let j = choose|j: int|
                            0 <= j < i && views(bases@).take(i as int)[j] == bases@[
                                i as int
                            ]@;
                        assert(views(bases@)[j] == views(bases@)[i as int]);
                    }
                }
                lemma_first_free_base(bases@[i as int]@, views(old_out), u@);
                assert(views(out@) =~= views(bases@).take(i + 1));
            }
        }
        i += 1;
    }
    proof {
        assert(views(bases@).take(n as int) == views(bases@));
        assert(out@.take(out@.len() as int) == out@);
    }
    out
}

/// Re-running a uniquification pass over an already-distinct sequence of
/// identifiers changes nothing: each name is the first free candidate for
/// itself against the names before it.
pub proof fn lemma_uniquify_rerun_no_op(out: Seq<Seq<char>>)
    requires
        out.no_duplicates(),
    ensures
        forall|i: int| 0 <= i < out.len() ==> is_first_free(out[i], out.take(i), out[i]),
{
    assert forall|i: int| 0 <= i < out.len() implies is_first_free(
        out[i],
        out.take(i),
        out[i],
    ) by {
        assert(!out.take(i).contains(out[i])) by {
            if out.take(i).contains(out[i]) {
                let j = choose|j: int| 0 <= j < i && out.take(i)[j] == out[i];
                assert(out[j] == out[i]);
            }
        }
        assert(is_free_at(out[i], out.take(i), 1));
        assert(out[i] == cand(out[i], 1));
    }
}

} // verus!
