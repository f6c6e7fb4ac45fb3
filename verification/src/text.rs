//! Byte-level text utilities for raw device frames: padding trim, separator
//! splitting, and UTF-8 validation.

use vstd::prelude::*;
use vstd::assert_seqs_equal;

verus! {

/// Bytes stripped from both ends of a raw frame: NUL padding and newlines.
pub open spec fn is_pad(b: u8) -> bool {
    b == 0u8 || b == 10u8
}

/// Number of leading pad bytes of `s`.
pub open spec fn lead_pads(s: Seq<u8>) -> int
    decreases s.len(),
{
    if s.len() == 0 {
        0
    } else if is_pad(s[0]) {
        1 + lead_pads(s.skip(1))
    } else {
        0
    }
}

/// Number of trailing pad bytes of `s`.
pub open spec fn trail_pads(s: Seq<u8>) -> int
    decreases s.len(),
{
    if s.len() == 0 {
        0
    } else if is_pad(s[s.len() - 1]) {
        1 + trail_pads(s.drop_last())
    } else {
        0
    }
}

/// `s` with every leading and trailing pad byte removed.
pub open spec fn spec_trim(s: Seq<u8>) -> Seq<u8> {
    if lead_pads(s) == s.len() {
        Seq::empty()
    } else {
        s.subrange(lead_pads(s), s.len() - trail_pads(s))
    }
}

proof fn lemma_lead_pads_bounds(s: Seq<u8>)
    ensures
        0 <= lead_pads(s) <= s.len(),
        forall|j: int| 0 <= j < lead_pads(s) ==> is_pad(s[j]),
        lead_pads(s) < s.len() ==> !is_pad(s[lead_pads(s)]),
    decreases s.len(),
{
    if s.len() == 0 {
    } else if is_pad(s[0]) {
        lemma_lead_pads_bounds(s.skip(1));
        assert forall|j: int| 0 <= j < lead_pads(s) implies is_pad(s[j]) by {
            if j > 0 {
                assert(s.skip(1)[j - 1] == s[j]);
            }
        }
        if lead_pads(s) < s.len() {
            assert(s.skip(1)[lead_pads(s) - 1] == s[lead_pads(s)]);
        }
    } else {
    }
}

proof fn lemma_trail_pads_bounds(s: Seq<u8>)
    ensures
        0 <= trail_pads(s) <= s.len(),
        forall|j: int| s.len() - trail_pads(s) <= j < s.len() ==> is_pad(s[j]),
        trail_pads(s) < s.len() ==> !is_pad(s[s.len() - trail_pads(s) - 1]),
    decreases s.len(),
{
    if s.len() == 0 {
    } else if is_pad(s[s.len() - 1]) {
        lemma_trail_pads_bounds(s.drop_last());
        assert forall|j: int| s.len() - trail_pads(s) <= j < s.len() implies is_pad(s[j]) by {
            if j < s.len() - 1 {
                assert(s.drop_last()[j] == s[j]);
            }
        }
        if trail_pads(s) < s.len() {
            assert(s.drop_last()[s.len() - trail_pads(s) - 1] == s[s.len() - trail_pads(s) - 1]);
        }
    } else {
    }
}

/// `lead_pads` is determined by any index `k` such that everything before
/// `k` is padding and `k` itself (if in range) is not.
proof fn lemma_lead_pads_exact(s: Seq<u8>, k: int)
    requires
        0 <= k <= s.len(),
        forall|j: int| 0 <= j < k ==> is_pad(s[j]),
        k < s.len() ==> !is_pad(s[k]),
    ensures
        lead_pads(s) == k,
{
    lemma_lead_pads_bounds(s);
    if lead_pads(s) < k {
        assert(is_pad(s[lead_pads(s)]));
    }
    if k < lead_pads(s) {
        assert(is_pad(s[k]));
    }
}

proof fn lemma_trail_pads_exact(s: Seq<u8>, k: int)
    requires
        0 <= k <= s.len(),
        forall|j: int| s.len() - k <= j < s.len() ==> is_pad(s[j]),
        k < s.len() ==> !is_pad(s[s.len() - k - 1]),
    ensures
        trail_pads(s) == k,
{
    lemma_trail_pads_bounds(s);
    if trail_pads(s) < k {
        assert(is_pad(s[s.len() - trail_pads(s) - 1]));
    }
    if k < trail_pads(s) {
        assert(is_pad(s[s.len() - k - 1]));
    }
}

/// Executable pad test.
pub fn byte_is_pad(b: u8) -> (r: bool)
    ensures
        r == is_pad(b),
{
    b == 0u8 || b == 10u8
}

/// Strip leading and trailing NUL/newline padding from a raw frame.
pub fn trim_frame(s: &[u8]) -> (r: Vec<u8>)
    ensures
        r@ == spec_trim(s@),
{
    let n = s.len();
    let mut lo: usize = 0;
    while lo < n && byte_is_pad(s[lo])
        invariant
            0 <= lo <= n,
            n == s@.len(),
            forall|j: int| 0 <= j < lo ==> is_pad(s@[j]),
        decreases n - lo,
    {
        lo += 1;
    }
    if lo == n {
        proof {
            lemma_lead_pads_exact(s@, n as int);
        }
        return Vec::new();
    }
    proof {
        lemma_lead_pads_exact(s@, lo as int);
    }
    let mut hi: usize = n;
    while hi > lo && byte_is_pad(s[hi - 1])
        invariant
            lo <= hi <= n,
            n == s@.len(),
            lo < n,
            !is_pad(s@[lo as int]),
            forall|j: int| hi <= j < n ==> is_pad(s@[j]),
        decreases hi,
    {
        hi -= 1;
    }
    proof {
        assert(hi > lo);
        lemma_trail_pads_exact(s@, n - hi);
    }
    let mut r: Vec<u8> = Vec::new();
    let mut i: usize = lo;
    while i < hi
        invariant
            lo <= i <= hi <= n,
            n == s@.len(),
            r@ == s@.subrange(lo as int, i as int),
        decreases hi - i,
    {
        r.push(s[i]);
        proof {
            assert_seqs_equal!(r@ == s@.subrange(lo as int, i + 1));
        }
        i += 1;
    }
    r
}

/// The fields of `s` split on the separator byte `sep`.
///
/// Splitting the empty sequence yields one empty field, matching the
/// behaviour of splitting a string: there is always one field more than
/// there are separators.
pub open spec fn split_at_sep(s: Seq<u8>, sep: u8) -> Seq<Seq<u8>>
    decreases s.len(),
{
    if s.len() == 0 {
        seq![Seq::empty()]
    } else if s[0] == sep {
        seq![Seq::empty()].add(split_at_sep(s.skip(1), sep))
    } else {
        let rest = split_at_sep(s.skip(1), sep);
        seq![seq![s[0]].add(rest[0])].add(rest.skip(1))
    }
}

proof fn lemma_split_nonempty(s: Seq<u8>, sep: u8)
    ensures
        split_at_sep(s, sep).len() >= 1,
    decreases s.len(),
{
    if s.len() != 0 {
        lemma_split_nonempty(s.skip(1), sep);
    }
}

/// How appending one byte extends a split: a separator opens a fresh empty
/// field, any other byte extends the last field.
proof fn lemma_split_snoc(s: Seq<u8>, c: u8, sep: u8)
    ensures
        c == sep ==> split_at_sep(s.push(c), sep) == split_at_sep(s, sep).push(Seq::empty()),
        c != sep ==> split_at_sep(s.push(c), sep) == split_at_sep(s, sep).update(
            split_at_sep(s, sep).len() - 1,
            split_at_sep(s, sep).last().push(c),
        ),
    decreases s.len(),
{
    lemma_split_nonempty(s, sep);
    if s.len() == 0 {
        reveal_with_fuel(split_at_sep, 3);
        assert(s.push(c).len() == 1);
        assert(s.push(c)[0] == c);
        assert(s.push(c).skip(1) =~= Seq::<u8>::empty());
        assert(s =~= Seq::<u8>::empty());
        if c == sep {
            assert(split_at_sep(s.push(c), sep) =~~= split_at_sep(s, sep).push(Seq::empty()));
        } else {
            assert(split_at_sep(s.push(c), sep) =~~= split_at_sep(s, sep).update(
                0,
                split_at_sep(s, sep).last().push(c),
            ));
        }
    } else {
        lemma_split_snoc(s.skip(1), c, sep);
        lemma_split_nonempty(s.skip(1), sep);
        assert(s.push(c)[0] == s[0]);
        assert(s.push(c).skip(1) =~= s.skip(1).push(c));
        let rest = split_at_sep(s.skip(1), sep);
        let restc = split_at_sep(s.skip(1).push(c), sep);
        if s[0] == sep {
            if c == sep {
                assert(split_at_sep(s.push(c), sep) =~= split_at_sep(s, sep).push(Seq::empty()));
            } else {
                assert(restc == rest.update(rest.len() - 1, rest.last().push(c)));
                assert(split_at_sep(s, sep) == seq![Seq::<u8>::empty()].add(rest));
                assert(split_at_sep(s.push(c), sep) == seq![Seq::<u8>::empty()].add(restc));
                assert(split_at_sep(s, sep).last() == rest.last());
                assert(split_at_sep(s.push(c), sep) =~= split_at_sep(s, sep).update(
                    split_at_sep(s, sep).len() - 1,
                    split_at_sep(s, sep).last().push(c),
                ));
            }
        } else {
            if c == sep {
                assert(restc == rest.push(Seq::empty()));
                assert(restc[0] == rest[0]);
                assert(restc.skip(1) =~= rest.skip(1).push(Seq::<u8>::empty()));
                assert(split_at_sep(s.push(c), sep) =~= split_at_sep(s, sep).push(Seq::empty()));
            } else {
                assert(restc == rest.update(rest.len() - 1, rest.last().push(c)));
                if rest.len() == 1 {
                    assert(restc[0] == rest[0].push(c));
                    assert(restc.skip(1) =~= rest.skip(1));
                    assert(split_at_sep(s, sep).len() == 1);
                    assert(split_at_sep(s.push(c), sep) =~~= split_at_sep(s, sep).update(
                        split_at_sep(s, sep).len() - 1,
                        split_at_sep(s, sep).last().push(c),
                    ));
                } else {
                    assert(restc[0] == rest[0]);
                    assert(restc.skip(1) =~= rest.skip(1).update(
                        rest.len() - 2,
                        rest.last().push(c),
                    ));
                    assert(split_at_sep(s.push(c), sep) =~~= split_at_sep(s, sep).update(
                        split_at_sep(s, sep).len() - 1,
                        split_at_sep(s, sep).last().push(c),
                    ));
                }
            }
        }
    }
}

/// The views of a vector of byte fields.
pub open spec fn fields_view(v: Seq<Vec<u8>>) -> Seq<Seq<u8>> {
    v.map_values(|f: Vec<u8>| f@)
}

/// Split a byte string into its `sep`-separated fields.
pub fn split_bytes(s: &[u8], sep: u8) -> (r: Vec<Vec<u8>>)
    ensures
        fields_view(r@) == split_at_sep(s@, sep),
{
    let mut done: Vec<Vec<u8>> = Vec::new();
    let mut cur: Vec<u8> = Vec::new();
    let n = s.len();
    let mut i: usize = 0;
    proof {
        assert(s@.take(0) =~= Seq::<u8>::empty());
        assert(fields_view(done@).push(cur@) =~= split_at_sep(s@.take(0), sep));
    }
    while i < n
        invariant
            0 <= i <= n,
            n == s@.len(),
            fields_view(done@).push(cur@) == split_at_sep(s@.take(i as int), sep),
        decreases n - i,
    {
        let c = s[i];
        proof {
            assert(s@.take(i + 1) =~= s@.take(i as int).push(s@[i as int]));
            lemma_split_snoc(s@.take(i as int), c, sep);
            lemma_split_nonempty(s@.take(i as int), sep);
        }
        if c == sep {
            let ghost old_done = done@;
            let ghost old_cur = cur@;
            done.push(cur);
            cur = Vec::new();
            proof {
                assert(fields_view(done@) =~= fields_view(old_done).push(old_cur));
                assert(fields_view(done@).push(cur@) =~= split_at_sep(s@.take(i + 1), sep));
            }
        } else {
            let ghost old_cur = cur@;
            cur.push(c);
            proof {
                let pre = split_at_sep(s@.take(i as int), sep);
                assert(pre.last() == old_cur);
                assert(fields_view(done@).push(cur@) =~= pre.update(
                    pre.len() - 1,
                    pre.last().push(c),
                ));
            }
        }
        i += 1;
    }
    proof {
        assert(s@.take(n as int) =~= s@);
    }
    done.push(cur);
    proof {
        assert(fields_view(done@) =~= split_at_sep(s@, sep));
    }
    done
}

/// A UTF-8 continuation byte, `0b10xx_xxxx`.
pub open spec fn is_cont(b: u8) -> bool {
    0x80 <= b && b <= 0xBF
}

/// `s` is a well-formed UTF-8 byte sequence.
///
/// Follows the shortest-form encoding table of RFC 3629: one byte below
/// 0x80; two bytes with a lead in 0xC2..=0xDF; three bytes with the first
/// continuation restricted after 0xE0 (no overlong forms) and 0xED (no
/// surrogates); four bytes with the first continuation restricted after
/// 0xF0 (no overlong forms) and 0xF4 (nothing above U+10FFFF).
pub open spec fn is_utf8(s: Seq<u8>) -> bool
    decreases s.len(),
{
    if s.len() == 0 {
        true
    } else {
        let b0 = s[0];
        if b0 < 0x80 {
            is_utf8(s.skip(1))
        } else if 0xC2 <= b0 && b0 <= 0xDF {
            s.len() >= 2 && is_cont(s[1]) && is_utf8(s.skip(2))
        } else if b0 == 0xE0 {
            s.len() >= 3 && 0xA0 <= s[1] && s[1] <= 0xBF && is_cont(s[2]) && is_utf8(s.skip(3))
        } else if (0xE1 <= b0 && b0 <= 0xEC) || b0 == 0xEE || b0 == 0xEF {
            s.len() >= 3 && is_cont(s[1]) && is_cont(s[2]) && is_utf8(s.skip(3))
        } else if b0 == 0xED {
            s.len() >= 3 && 0x80 <= s[1] && s[1] <= 0x9F && is_cont(s[2]) && is_utf8(s.skip(3))
        } else if b0 == 0xF0 {
            s.len() >= 4 && 0x90 <= s[1] && s[1] <= 0xBF && is_cont(s[2]) && is_cont(s[3])
                && is_utf8(s.skip(4))
        } else if 0xF1 <= b0 && b0 <= 0xF3 {
            s.len() >= 4 && is_cont(s[1]) && is_cont(s[2]) && is_cont(s[3]) && is_utf8(s.skip(4))
        } else if b0 == 0xF4 {
            s.len() >= 4 && 0x80 <= s[1] && s[1] <= 0x8F && is_cont(s[2]) && is_cont(s[3])
                && is_utf8(s.skip(4))
        } else {
            false
        }
    }
}

/// Executable continuation-byte test.
fn byte_is_cont(b: u8) -> (r: bool)
    ensures
        r == is_cont(b),
{
    0x80 <= b && b <= 0xBF
}

/// Decide whether `s` is well-formed UTF-8.
pub fn validate_utf8(s: &[u8]) -> (r: bool)
    ensures
        r == is_utf8(s@),
{
    let n = s.len();
    let mut i: usize = 0;
    proof {
        assert(s@.skip(0) =~= s@);
    }
    while i < n
        invariant
            0 <= i <= n,
            n == s@.len(),
            is_utf8(s@) == is_utf8(s@.skip(i as int)),
        decreases n - i,
    {
        let ghost tail = s@.skip(i as int);
        let b0 = s[i];
        assert(tail[0] == s@[i as int]);
        assert(forall|k: int| 0 <= k < tail.len() ==> tail[k] == s@[i + k]);
        if b0 < 0x80 {
            proof {
                assert(tail.skip(1) =~= s@.skip(i + 1));
            }
            i += 1;
        } else if 0xC2 <= b0 && b0 <= 0xDF {
            if !(i + 1 < n && byte_is_cont(s[i + 1])) {
                return false;
            }
            proof {
                assert(tail.skip(2) =~= s@.skip(i + 2));
            }
            i += 2;
        } else if 0xE0 <= b0 && b0 <= 0xEF {
            if n - i < 3 {
                return false;
            }
            let b1 = s[i + 1];
            let b2 = s[i + 2];
            let lo1: u8 = if b0 == 0xE0 { 0xA0 } else { 0x80 };
            let hi1: u8 = if b0 == 0xED { 0x9F } else { 0xBF };
            if !(lo1 <= b1 && b1 <= hi1 && byte_is_cont(b2)) {
                return false;
            }
            proof {
                assert(tail.skip(3) =~= s@.skip(i + 3));
            }
            i += 3;
        } else if 0xF0 <= b0 && b0 <= 0xF4 {
            if n - i < 4 {
                return false;
            }
            let b1 = s[i + 1];
            let b2 = s[i + 2];
            let b3 = s[i + 3];
            let lo1: u8 = if b0 == 0xF0 { 0x90 } else { 0x80 };
            let hi1: u8 = if b0 == 0xF4 { 0x8F } else { 0xBF };
            if !(lo1 <= b1 && b1 <= hi1 && byte_is_cont(b2) && byte_is_cont(b3)) {
                return false;
            }
            proof {
                assert(tail.skip(4) =~= s@.skip(i + 4));
            }
            i += 4;
        } else {
            return false;
        }
    }
    proof {
        assert(s@.skip(n as int) =~= Seq::<u8>::empty());
    }
    true
}

/// Splitting a string with no separator yields the string as the only field.
pub proof fn lemma_split_no_sep(s: Seq<u8>, sep: u8)
    requires
        forall|i: int| 0 <= i < s.len() ==> s[i] != sep,
    ensures
        split_at_sep(s, sep) == seq![s],
    decreases s.len(),
{
    if s.len() == 0 {
        assert(split_at_sep(s, sep) =~~= seq![s]);
    } else {
        assert(forall|i: int| 0 <= i < s.skip(1).len() ==> s.skip(1)[i] == s[i + 1]);
        lemma_split_no_sep(s.skip(1), sep);
        assert(split_at_sep(s, sep) =~~= seq![s]) by {
            assert(seq![s[0]].add(s.skip(1)) =~= s);
        }
    }
}

/// Splitting off a separator-free first field: the remainder splits on its
/// own.
pub proof fn lemma_split_clean_prefix(a: Seq<u8>, rest: Seq<u8>, sep: u8)
    requires
        forall|i: int| 0 <= i < a.len() ==> a[i] != sep,
    ensures
        split_at_sep(a.add(seq![sep].add(rest)), sep) == seq![a].add(split_at_sep(rest, sep)),
    decreases a.len(),
{
    let s = a.add(seq![sep].add(rest));
    lemma_split_nonempty(rest, sep);
    if a.len() == 0 {
        assert(s[0] == sep);
        assert(s.skip(1) =~= rest);
        assert(split_at_sep(s, sep) =~~= seq![a].add(split_at_sep(rest, sep)));
    } else {
        assert(s[0] == a[0]);
        assert(s[0] != sep);
        assert(s.skip(1) =~= a.skip(1).add(seq![sep].add(rest)));
        assert(forall|i: int| 0 <= i < a.skip(1).len() ==> a.skip(1)[i] == a[i + 1]);
        lemma_split_clean_prefix(a.skip(1), rest, sep);
        let inner = split_at_sep(s.skip(1), sep);
        assert(inner == seq![a.skip(1)].add(split_at_sep(rest, sep)));
        assert(split_at_sep(s, sep) =~~= seq![a].add(split_at_sep(rest, sep))) by {
            assert(inner[0] == a.skip(1));
            assert(seq![s[0]].add(a.skip(1)) =~= a);
            assert(inner.skip(1) =~= split_at_sep(rest, sep));
        }
    }
}

} // verus!
