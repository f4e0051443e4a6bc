use vstd::prelude::*;
use vstd::arithmetic::power2::pow2;
use vstd::arithmetic::power2::lemma2_to64;
use vstd::arithmetic::power2::lemma2_to64_rest;
use vstd::bits::low_bits_mask;
use vstd::bits::lemma_u64_pow2_no_overflow;
use vstd::bits::lemma_u64_shl_is_mul;
use vstd::bits::lemma_u64_shr_is_div;
use vstd::bits::lemma_u64_low_bits_mask_is_mod;
use vstd::string::StrSliceExecFns;
use crate::error::Error;

verus! {

/// Message of the `Packet` error returned for an upper bound past the last bit.
pub const UPPER_BOUND_MSG: &'static str = "Upper bound must be less than 64.";

/// Message of the `Packet` error returned for a lower bound past the last bit
/// or past the upper bound.
pub const LOWER_BOUND_MSG: &'static str = "Lower bound must be less than the lesser of 63 or `upper`.";

/// The hex digits accepted in byte tokens: `0`-`9`, `a`-`f`, `A`-`F`.
pub open spec fn is_hex_digit(c: char) -> bool {
    (48 <= c as u32 && c as u32 <= 57) || (97 <= c as u32 && c as u32 <= 102) || (65 <= c as u32
        && c as u32 <= 70)
}

/// Value of one hex digit.
pub open spec fn hex_digit_value(c: char) -> nat {
    if 48 <= c as u32 && c as u32 <= 57 {
        (c as u32 - 48) as nat
    } else if 97 <= c as u32 && c as u32 <= 102 {
        (c as u32 - 87) as nat
    } else {
        (c as u32 - 55) as nat
    }
}

/// The part of a line before its first `<`: everything from the delimiter on
/// is a non-data annotation and is ignored.
pub open spec fn marker_prefix(s: Seq<char>) -> Seq<char>
    decreases s.len(),
{
    if s.len() == 0 {
        s
    } else if s[0] == '<' {
        Seq::empty()
    } else {
        seq![s[0]] + marker_prefix(s.drop_first())
    }
}

/// The line split on single spaces, empty tokens included, exactly as
/// splitting on one space character does: splitting the empty sequence gives
/// one empty token, and each further character either closes a token (a
/// space) or extends the last one.
pub open spec fn space_split(s: Seq<char>) -> Seq<Seq<char>>
    decreases s.len(),
{
    if s.len() == 0 {
        seq![Seq::<char>::empty()]
    } else if s.last() == ' ' {
        space_split(s.drop_last()).push(Seq::empty())
    } else {
        let t = space_split(s.drop_last());
        t.update(t.len() - 1, t.last().push(s.last()))
    }
}

/// Front truncation: while more than 8 tokens remain, tokens are dropped from
/// the front, keeping the 8 most recent.
pub open spec fn kept_tokens(toks: Seq<Seq<char>>) -> Seq<Seq<char>> {
    if toks.len() > 8 {
        toks.skip(toks.len() - 8)
    } else {
        toks
    }
}

/// Back padding: while fewer than 8 tokens remain, a `"00"` token is appended.
pub open spec fn padded_tokens(toks: Seq<Seq<char>>) -> Seq<Seq<char>>
    decreases 8 - toks.len(),
{
    if toks.len() >= 8 {
        toks
    } else {
        padded_tokens(toks.push(seq!['0', '0']))
    }
}

/// The concatenation of a token sequence.
pub open spec fn concat_tokens(toks: Seq<Seq<char>>) -> Seq<char>
    decreases toks.len(),
{
    if toks.len() == 0 {
        Seq::empty()
    } else {
        concat_tokens(toks.drop_last()) + toks.last()
    }
}

/// Whether every character is a hex digit.
pub open spec fn all_hex(s: Seq<char>) -> bool {
    forall|i: int| 0 <= i < s.len() ==> is_hex_digit(s[i])
}

/// Value of a sequence of hex digits, read base 16, most significant first.
pub open spec fn hex_value(s: Seq<char>) -> nat
    decreases s.len(),
{
    if s.len() == 0 {
        0
    } else {
        hex_value(s.drop_last()) * 16 + hex_digit_value(s.last())
    }
}

/// The hex text a line's packet is read from: the line cut at its first `<`,
/// split on single spaces, front-truncated and back-padded to exactly 8
/// tokens, and concatenated.
pub open spec fn hex_field(line: Seq<char>) -> Seq<char> {
    concat_tokens(padded_tokens(kept_tokens(space_split(marker_prefix(line)))))
}

/// Whether a line yields a packet: its hex field must be a nonempty string of
/// hex digits whose value fits in 64 bits.
pub open spec fn line_parses(line: Seq<char>) -> bool {
    let h = hex_field(line);
    h.len() > 0 && all_hex(h) && hex_value(h) <= u64::MAX
}

/// The packet value a line yields.
pub open spec fn packet_value(line: Seq<char>) -> nat {
    hex_value(hex_field(line))
}

/// What parsing a line returns: the assembled packet, or a `Conversion` error
/// exactly where the hex field is malformed. Parsing is a function of the
/// line's characters alone, so repeated calls on the same line agree.
pub open spec fn spec_parse(line: Seq<char>) -> Result<ObdPacket, Error> {
    if line_parses(line) {
        Ok(ObdPacket { packet: packet_value(line) as u64 })
    } else {
        Err(Error::Conversion)
    }
}

/// Represents a packet received from the adapter: an immutable 64-bit value
/// assembled from the up-to-8 hex byte tokens of one response line.
#[derive(Debug)]
pub struct ObdPacket {
    /// The assembled 64-bit value.
    pub packet: u64,
}

proof fn lemma_marker_prefix(s: Seq<char>, i: int)
    requires
        0 <= i <= s.len(),
        forall|j: int| 0 <= j < i ==> s[j] != '<',
        i == s.len() || s[i] == '<',
    ensures
        marker_prefix(s) == s.take(i),
    decreases s.len(),
{
    if s.len() == 0 {
        assert(s.take(i) =~= s);
    } else if s[0] == '<' {
        assert(i == 0);
        assert(s.take(0) =~= Seq::<char>::empty());
    } else {
        assert(i >= 1);
        lemma_marker_prefix(s.drop_first(), i - 1);
        assert(seq![s[0]] + s.drop_first().take(i - 1) =~= s.take(i));
    }
}

proof fn lemma_space_split_len(s: Seq<char>)
    ensures
        space_split(s).len() >= 1,
    decreases s.len(),
{
    if s.len() > 0 {
        lemma_space_split_len(s.drop_last());
    }
}

proof fn lemma_hex_value_prefix_le(s: Seq<char>, i: int)
    requires
        0 <= i <= s.len(),
    ensures
        hex_value(s.take(i)) <= hex_value(s),
    decreases s.len() - i,
{
    if i == s.len() {
        assert(s.take(i) =~= s);
    } else {
        assert(s.take(i + 1).drop_last() =~= s.take(i));
        assert(s.take(i + 1).last() == s[i]);
        assert(hex_value(s.take(i)) <= hex_value(s.take(i + 1)));
        lemma_hex_value_prefix_le(s, i + 1);
    }
}

proof fn lemma_mask_step(mask: u64, k: u64)
    requires
        k < 64,
        mask == low_bits_mask(k as nat),
    ensures
        (mask | (1u64 << k)) == low_bits_mask((k + 1) as nat),
{
    lemma_u64_pow2_no_overflow(k as nat);
    lemma_u64_shl_is_mul(1u64, k);
    let p = 1u64 << k;
    assert(p == pow2(k as nat));
    assert(mask | (1u64 << k) == mask + (1u64 << k)) by (bit_vector)
        requires
            k < 64 && mask + 1 == (1u64 << k),
    ;
    assert(mask + p == 2 * pow2(k as nat) - 1);
    assert(pow2((k + 1) as nat) == 2 * pow2(k as nat)) by {
        vstd::arithmetic::power2::lemma_pow2_unfold((k + 1) as nat);
    }
}

impl ObdPacket {
    /// Builds an empty packet, consisting of all zeros.
    pub fn empty() -> (r: Self)
        ensures
            r.packet == 0,
    {
        ObdPacket { packet: 0 }
    }

    /// Builds a packet from a response line: ignores everything from the
    /// first `<` on, splits on single spaces, keeps the last 8 tokens (or
    /// pads with `"00"` tokens at the end up to 8), and reads the
    /// concatenation as a base-16 value. A malformed concatenation fails with
    /// a `Conversion` error.
    pub fn new(s: &str) -> (r: Result<Self, Error>)
        ensures
            r == spec_parse(s@),
    {
        let n = s.unicode_len();
        let mut cs: Vec<char> = Vec::new();
        let mut i: usize = 0;
        loop
            invariant_except_break
                i <= n,
                n == s@.len(),
                cs@ == s@.take(i as int),
                forall|j: int| 0 <= j < i ==> s@[j] != '<',
            ensures
                i <= n,
                n == s@.len(),
                cs@ == s@.take(i as int),
                forall|j: int| 0 <= j < i ==> s@[j] != '<',
                i == n || s@[i as int] == '<',
            decreases n - i,
        {
            if i >= n {
                break ;
            }
            let c = s.get_char(i);
            if c == '<' {
                break ;
            }
            cs.push(c);
            i += 1;
            proof {
                assert(cs@ =~= s@.take(i as int));
            }
        }
        proof {
            lemma_marker_prefix(s@, i as int);
        }
        // cs now holds the line's characters before the first `<`.
        let m = cs.len();
        let mut toks: Vec<Vec<char>> = Vec::new();
        let mut cur: Vec<char> = Vec::new();
        let mut i2: usize = 0;
        proof {
            assert(toks.deep_view().push(cur.deep_view()) =~~= space_split(cs@.take(0)));
        }
        while i2 < m
            invariant
                i2 <= m,
                m == cs@.len(),
                space_split(cs@.take(i2 as int)) == toks.deep_view().push(cur.deep_view()),
            decreases m - i2,
        {
            let ghost old_toks = toks.deep_view();
            let ghost old_cur = cur.deep_view();
            let c = cs[i2];
            if c == ' ' {
                toks.push(cur);
                cur = Vec::new();
            } else {
                cur.push(c);
            }
            proof {
                let t = cs@.take(i2 + 1);
                assert(t.drop_last() =~= cs@.take(i2 as int));
                assert(t.last() == cs@[i2 as int]);
                lemma_space_split_len(t.drop_last());
                if c == ' ' {
                    assert(toks.deep_view() =~~= old_toks.push(old_cur));
                    assert(space_split(t) =~~= toks.deep_view().push(cur.deep_view()));
                } else {
                    assert(cur.deep_view() =~~= old_cur.push(c));
                    assert(space_split(t) =~~= old_toks.push(old_cur).update(
                        old_toks.len() as int,
                        old_cur.push(c),
                    ));
                    assert(space_split(t) =~~= toks.deep_view().push(cur.deep_view()));
                }
            }
            i2 += 1;
        }
        proof {
            assert(cs@.take(m as int) =~= cs@);
        }
        let ghost pre_push = toks.deep_view();
        toks.push(cur);
        proof {
            assert(toks.deep_view() =~~= pre_push.push(cur.deep_view()));
            assert(toks.deep_view() == space_split(cs@));
        }
        // toks now holds the split tokens; trim from the front to at most 8.
        let ghost split_toks = space_split(cs@);
        while toks.len() > 8
            invariant
                kept_tokens(toks.deep_view()) == kept_tokens(split_toks),
            decreases toks.len(),
        {
            let ghost before = toks.deep_view();
            toks.remove(0);
            proof {
                assert(toks.deep_view() =~~= before.drop_first());
                assert(kept_tokens(before.drop_first()) =~~= kept_tokens(before));
            }
        }
        proof {
            assert(toks.deep_view() == kept_tokens(split_toks));
        }
        // Pad with "00" tokens at the end up to exactly 8.
        let ghost kept = kept_tokens(split_toks);
        while toks.len() < 8
            invariant
                toks@.len() <= 8,
                padded_tokens(toks.deep_view()) == padded_tokens(kept),
            decreases 8 - toks.len(),
        {
            let ghost before = toks.deep_view();
            let mut zz: Vec<char> = Vec::new();
            zz.push('0');
            zz.push('0');
            toks.push(zz);
            proof {
                assert(zz.deep_view() =~= seq!['0', '0']);
                assert(toks.deep_view() =~~= before.push(seq!['0', '0']));
            }
        }
        proof {
            assert(toks.deep_view() == padded_tokens(kept));
        }
        // Concatenate the 8 tokens into the hex field.
        let ghost dv = toks.deep_view();
        let tn = toks.len();
        let mut acc: Vec<char> = Vec::new();
        let mut t: usize = 0;
        proof {
            assert(acc@ =~= concat_tokens(dv.take(0)));
        }
        while t < tn
            invariant
                t <= tn,
                tn == toks@.len(),
                dv == toks.deep_view(),
                acc@ == concat_tokens(dv.take(t as int)),
            decreases tn - t,
        {
            let ghost acc_start = acc@;
            let tok_len = toks[t].len();
            let mut c2: usize = 0;
            while c2 < tok_len
                invariant
                    c2 <= tok_len,
                    t < tn,
                    tn == toks@.len(),
                    dv == toks.deep_view(),
                    tok_len == toks@[t as int]@.len(),
                    acc@ == acc_start + dv[t as int].take(c2 as int),
                decreases tok_len - c2,
            {
                let ch = toks[t][c2];
                acc.push(ch);
                proof {
                    assert(dv[t as int] =~= toks@[t as int]@);
                    assert(acc_start + dv[t as int].take(c2 + 1) =~= (acc_start + dv[
                        t as int
                    ].take(c2 as int)).push(toks@[t as int]@[c2 as int]));
                }
                c2 += 1;
            }
            proof {
                assert(dv[t as int].take(dv[t as int].len() as int) =~= dv[t as int]);
                assert(dv.take(t + 1).drop_last() =~= dv.take(t as int));
                assert(dv.take(t + 1).last() == dv[t as int]);
                assert(acc@ == concat_tokens(dv.take(t + 1)));
            }
            t += 1;
        }
        proof {
            assert(dv.take(tn as int) =~= dv);
            assert(acc@ == hex_field(s@));
        }
        // Read the hex field as a base-16 value.
        if acc.len() == 0 {
            return Err(Error::Conversion);
        }
        let an = acc.len();
        let mut value: u64 = 0;
        let mut i3: usize = 0;
        proof {
            assert(acc@.take(0) =~= Seq::<char>::empty());
        }
        while i3 < an
            invariant
                i3 <= an,
                an == acc@.len(),
                acc@ == hex_field(s@),
                forall|j: int| 0 <= j < i3 ==> is_hex_digit(acc@[j]),
                value == hex_value(acc@.take(i3 as int)),
            decreases an - i3,
        {
            let c = acc[i3];
            let u = c as u32;
            let d: u64;
            if 48 <= u && u <= 57 {
                d = (u - 48) as u64;
            } else if 97 <= u && u <= 102 {
                d = (u - 87) as u64;
            } else if 65 <= u && u <= 70 {
                d = (u - 55) as u64;
            } else {
                proof {
                    assert(!is_hex_digit(acc@[i3 as int]));
                    assert(!all_hex(hex_field(s@)));
                }
                return Err(Error::Conversion);
            }
            proof {
                assert(is_hex_digit(acc@[i3 as int]));
                assert(d == hex_digit_value(acc@[i3 as int]));
                assert(acc@.take(i3 + 1).drop_last() =~= acc@.take(i3 as int));
                assert(acc@.take(i3 + 1).last() == acc@[i3 as int]);
            }
            let v16 = match value.checked_mul(16) {
                Some(v) => v,
                None => {
                    proof {
                        assert(hex_value(acc@.take(i3 + 1)) > u64::MAX);
                        lemma_hex_value_prefix_le(acc@, i3 + 1);
                    }
                    return Err(Error::Conversion);
                },
            };
            let v2 = match v16.checked_add(d) {
                Some(v) => v,
                None => {
                    proof {
                        assert(hex_value(acc@.take(i3 + 1)) > u64::MAX);
                        lemma_hex_value_prefix_le(acc@, i3 + 1);
                    }
                    return Err(Error::Conversion);
                },
            };
            value = v2;
            i3 += 1;
        }
        proof {
            assert(acc@.take(an as int) =~= acc@);
            assert(line_parses(s@));
        }
        Ok(ObdPacket { packet: value })
    }

    /// Takes a slice of the packet: the bits from position `lower` through
    /// position `upper` inclusive, counted from the least significant bit,
    /// returned right-aligned. Both bounds must select existing bits and must
    /// not cross; each violation fails with its own descriptive `Packet`
    /// error.
    pub fn get(&self, lower: u8, upper: u8) -> (r: Result<u64, Error>)
        ensures
            upper > 63 ==> r == Err::<u64, Error>(Error::Packet(UPPER_BOUND_MSG)),
            upper <= 63 && (lower > 63 || lower > upper) ==> r == Err::<u64, Error>(
                Error::Packet(LOWER_BOUND_MSG),
            ),
            lower <= upper && upper <= 63 ==> (r matches Ok(v) && v as nat == ((
            self.packet as nat) / pow2(lower as nat)) % pow2((upper - lower + 1) as nat)),
    {
        if upper > 63 {
            return Err(Error::Packet(UPPER_BOUND_MSG));
        } else if lower > 63 || lower > upper {
            return Err(Error::Packet(LOWER_BOUND_MSG));
        }
        let mut mask: u64 = 0;
        let mut i: u8 = lower;
        proof {
            assert(low_bits_mask(0) == 0) by {
                lemma2_to64();
            }
        }
        while i <= upper
            invariant
                lower <= i,
                i <= upper + 1,
                lower <= upper,
                upper <= 63,
                mask == low_bits_mask((i - lower) as nat),
            decreases upper + 1 - i,
        {
            let sh = (i - lower) as u64;
            proof {
                lemma_mask_step(mask, sh);
            }
            mask = mask | (1u64 << sh);
            i += 1;
        }
        let shifted = self.packet >> (lower as u64);
        proof {
            lemma_u64_shr_is_div(self.packet, lower as u64);
            let w = (upper - lower + 1) as nat;
            if w < 64 {
                lemma_u64_low_bits_mask_is_mod(shifted, w);
                lemma_u64_pow2_no_overflow(w);
                assert(mask & shifted == shifted & mask) by (bit_vector);
            } else {
                lemma2_to64_rest();
                assert(mask == 0xffff_ffff_ffff_ffffu64);
                assert(mask & shifted == shifted) by (bit_vector)
                    requires
                        mask == 0xffff_ffff_ffff_ffffu64,
                ;
                assert((shifted as nat) % pow2(64) == shifted as nat) by {
                    assert((shifted as nat) < pow2(64));
                }
            }
        }
        Ok(mask & shifted)
    }
}

} // verus!
