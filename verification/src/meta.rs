//! Metafication: the byte-level escaping scheme of the history file.
//!
//! A fixed set of byte values (the meta-set) is special to the shell's own
//! tokenizer.  When a command is stored, every special byte is replaced by the
//! escape marker [`META`] followed by the byte XORed with [`META_MASK`]; every
//! other byte is stored unchanged.  Reading reverses this.  The escape marker
//! never stands last in a well-formed buffer; a buffer where it does is
//! corrupt and is rejected rather than decoded.

use vstd::prelude::*;

verus! {

/// The escape marker inserted before each special byte.
pub const META: u8 = 0x83;

/// The mask XORed onto a special byte stored after [`META`].
pub const META_MASK: u8 = 0x20;

/// A marker byte reserved by the shell, outside the token ranges.
pub const MARKER: u8 = 0xA2;

/// First byte value of the shell tokenizer's first reserved range.
pub const POUND: u8 = 0x84;

/// Last byte value of the shell tokenizer's first reserved range.
pub const LAST_NORMAL_TOK: u8 = 0x9C;

/// First byte value of the shell tokenizer's second reserved range.
pub const SNULL: u8 = 0x9D;

/// Last byte value of the shell tokenizer's second reserved range.
pub const NULARG: u8 = 0xA1;

/// The meta-set: the null byte, the escape marker itself, one further marker
/// byte, and the two contiguous ranges of token bytes reserved by the shell's
/// tokenizer.
pub open spec fn is_meta(b: u8) -> bool {
    ||| b == 0u8
    ||| b == META
    ||| b == MARKER
    ||| POUND <= b && b <= LAST_NORMAL_TOK
    ||| SNULL <= b && b <= NULARG
}

/// How [`metafy_spec`] renders one input byte.
pub open spec fn metafy_byte(b: u8) -> Seq<u8> {
    if is_meta(b) {
        seq![META, b ^ META_MASK]
    } else {
        seq![b]
    }
}

/// The escaped form of `s`: each special byte becomes the two-byte sequence
/// marker + XORed byte, every other byte is kept.
pub open spec fn metafy_spec(s: Seq<u8>) -> Seq<u8>
    decreases s.len(),
{
    if s.len() == 0 {
        seq![]
    } else {
        metafy_byte(s[0]) + metafy_spec(s.skip(1))
    }
}

/// Whether `s` unescapes cleanly: the escape marker is always followed by
/// another byte.
pub open spec fn unmetafy_ok(s: Seq<u8>) -> bool
    decreases s.len(),
{
    if s.len() == 0 {
        true
    } else if s[0] == META {
        s.len() >= 2 && unmetafy_ok(s.skip(2))
    } else {
        unmetafy_ok(s.skip(1))
    }
}

/// The unescaped form of `s`: after each escape marker the following byte is
/// emitted XORed with [`META_MASK`]; other bytes are emitted unchanged.
pub open spec fn unmetafy_spec(s: Seq<u8>) -> Seq<u8>
    recommends
        unmetafy_ok(s),
    decreases s.len(),
{
    if s.len() == 0 {
        seq![]
    } else if s[0] == META {
        if s.len() >= 2 {
            seq![s[1] ^ META_MASK] + unmetafy_spec(s.skip(2))
        } else {
            seq![]
        }
    } else {
        seq![s[0]] + unmetafy_spec(s.skip(1))
    }
}

/// Whether `b` belongs to the meta-set.
pub fn is_meta_char(b: u8) -> (r: bool)
    ensures
        r == is_meta(b),
{
    b == 0 || b == META || b == MARKER || (POUND <= b && b <= LAST_NORMAL_TOK) || (SNULL <= b
        && b <= NULARG)
}

/// Appending a byte appends its rendering.
proof fn lemma_metafy_push(s: Seq<u8>, b: u8)
    ensures
        metafy_spec(s.push(b)) == metafy_spec(s) + metafy_byte(b),
    decreases s.len(),
{
    let t = s.push(b);
    if s.len() == 0 {
        assert(t[0] == b);
        assert(t.skip(1) =~= Seq::<u8>::empty());
        assert(metafy_spec(t) == metafy_byte(b) + metafy_spec(t.skip(1)));
        assert(metafy_byte(b) + Seq::<u8>::empty() =~= metafy_byte(b));
        assert(metafy_spec(s) + metafy_byte(b) =~= metafy_byte(b));
    } else {
        assert(t[0] == s[0]);
        assert(t.skip(1) =~= s.skip(1).push(b));
        lemma_metafy_push(s.skip(1), b);
        assert(metafy_spec(t) == metafy_byte(s[0]) + (metafy_spec(s.skip(1)) + metafy_byte(b)));
        assert(metafy_byte(s[0]) + (metafy_spec(s.skip(1)) + metafy_byte(b)) =~= (metafy_byte(s[0])
            + metafy_spec(s.skip(1))) + metafy_byte(b));
    }
}

/// Escape a byte sequence into its on-disk metafied form.  Never fails; the
/// result is at least as long as the input.
pub fn metafy(str: &[u8]) -> (r: Vec<u8>)
    ensures
        r@ == metafy_spec(str@),
{
    let mut buf: Vec<u8> = Vec::new();
    let n = str.len();
    let mut i: usize = 0;
    while i < n
        invariant
            n == str@.len(),
            i <= n,
            buf@ == metafy_spec(str@.take(i as int)),
        decreases n - i,
    {
        let c = str[i];
        if is_meta_char(c) {
            buf.push(META);
            buf.push(c ^ META_MASK);
        } else {
            buf.push(c);
        }
        proof {
            lemma_metafy_push(str@.take(i as int), c);
            assert(str@.take(i + 1) =~= str@.take(i as int).push(c));
        }
        i += 1;
    }
    proof {
        assert(str@.take(n as int) =~= str@);
    }
    buf
}

/// Unescape a metafied byte sequence.  Returns `None` when the escape marker
/// stands last with no byte after it, which never happens in a well-formed
/// history record and signals corrupt input.
pub fn unmetafy(str: &[u8]) -> (r: Option<Vec<u8>>)
    ensures
        r is Some <==> unmetafy_ok(str@),
        r is Some ==> r->0@ == unmetafy_spec(str@),
{
    let mut buf: Vec<u8> = Vec::new();
    let n = str.len();
    let mut i: usize = 0;
    proof {
        assert(str@.skip(0) =~= str@);
    }
    while i < n
        invariant
            n == str@.len(),
            i <= n,
            unmetafy_ok(str@) == unmetafy_ok(str@.skip(i as int)),
            unmetafy_ok(str@) ==> unmetafy_spec(str@) == buf@ + unmetafy_spec(
                str@.skip(i as int),
            ),
        decreases n - i,
    {
        let c = str[i];
        if c == META {
            if i + 1 == n {
                proof {
                    assert(!unmetafy_ok(str@.skip(i as int)));
                }
                return None;
            }
            buf.push(str[i + 1] ^ META_MASK);
            proof {
                assert(str@.skip(i as int).skip(2) =~= str@.skip(i + 2));
            }
            i += 2;
        } else {
            buf.push(c);
            proof {
                assert(str@.skip(i as int).skip(1) =~= str@.skip(i + 1));
            }
            i += 1;
        }
    }
    proof {
        assert(str@.skip(n as int) =~= Seq::<u8>::empty());
        assert(buf@ + unmetafy_spec(str@.skip(n as int)) =~= buf@);
    }
    Some(buf)
}

/// Round trip: unescaping an escaped sequence always succeeds and yields the
/// original bytes, whatever bytes the input holds.
pub proof fn lemma_unmetafy_metafy(x: Seq<u8>)
    ensures
        unmetafy_ok(metafy_spec(x)),
        unmetafy_spec(metafy_spec(x)) == x,
    decreases x.len(),
{
    if x.len() == 0 {
    } else {
        let m = metafy_spec(x);
        lemma_unmetafy_metafy(x.skip(1));
        if is_meta(x[0]) {
            assert(m == seq![META, x[0] ^ META_MASK] + metafy_spec(x.skip(1)));
            assert(m.skip(2) =~= metafy_spec(x.skip(1)));
            let b = x[0];
            assert(((b ^ 0x20u8) ^ 0x20u8) == b) by (bit_vector);
            assert(META_MASK == 0x20u8);
            assert(unmetafy_spec(m) =~= x);
        } else {
            assert(m == seq![x[0]] + metafy_spec(x.skip(1)));
            assert(m.skip(1) =~= metafy_spec(x.skip(1)));
            assert(unmetafy_spec(m) =~= x);
        }
    }
}

} // verus!
