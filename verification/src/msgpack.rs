//! The binary record format a configuration is cached in.
//!
//! A configuration is stored as one five-element array — logo, components,
//! newline, spacing, oneline — in a compact tagged byte format: small
//! integers in one byte and wider ones behind `0xCC`/`0xCD`/`0xCE`/`0xCF`
//! prefixes, strings as a length header (`0xA0 | len`, `0xD9`, `0xDA`,
//! `0xDB`) followed by UTF-8 bytes, arrays as a length header
//! (`0x90 | len`, `0xDC`, `0xDD`) followed by their elements, booleans as
//! `0xC2`/`0xC3`, an absent icon as `0xC0`, and the logo as a one-entry
//! map from variant index to payload.  Every number is stored in its
//! shortest form, so each value has exactly one encoding, and the decoder
//! accepts exactly that form.

use vstd::prelude::*;
use vstd::arithmetic::div_mod::lemma_div_denominator;
use vstd::arithmetic::div_mod::lemma_fundamental_div_mod;
use vstd::arithmetic::div_mod::lemma_small_mod;
use vstd::arithmetic::mul::lemma_mul_inequality;
use vstd::string::StrSliceExecFns;
use vstd::utf8::encode_utf8;
use crate::config::Component;
use crate::config::ComponentV;
use crate::config::Config;
use crate::config::ConfigV;
use crate::config::Logo;
use crate::config::LogoV;

verus! {

/// Why a byte buffer does not decode to a configuration.
#[derive(Debug, Clone, PartialEq)]
pub enum MsgpackError {
    /// the bytes are not the canonical encoding of any configuration
    Malformed,
}

/// Two big-endian bytes of `n`.
pub open spec fn be16(n: nat) -> Seq<u8> {
    seq![(n / 0x100 % 0x100) as u8, (n % 0x100) as u8]
}

/// Four big-endian bytes of `n`.
pub open spec fn be32(n: nat) -> Seq<u8> {
    seq![
        (n / 0x1000000 % 0x100) as u8,
        (n / 0x10000 % 0x100) as u8,
        (n / 0x100 % 0x100) as u8,
        (n % 0x100) as u8,
    ]
}

/// Eight big-endian bytes of `n`.
pub open spec fn be64(n: nat) -> Seq<u8> {
    be32(n / 0x100000000) + be32(n % 0x100000000)
}

/// An unsigned integer in its shortest form.
pub open spec fn enc_uint(n: nat) -> Seq<u8> {
    if n < 0x80 {
        seq![n as u8]
    } else if n < 0x100 {
        seq![0xCCu8, n as u8]
    } else if n < 0x10000 {
        seq![0xCDu8] + be16(n)
    } else if n < 0x100000000 {
        seq![0xCEu8] + be32(n)
    } else {
        seq![0xCFu8] + be64(n)
    }
}

/// A string length header in its shortest form.
pub open spec fn enc_strlen(n: nat) -> Seq<u8> {
    if n < 32 {
        seq![(0xA0 + n) as u8]
    } else if n < 0x100 {
        seq![0xD9u8, n as u8]
    } else if n < 0x10000 {
        seq![0xDAu8] + be16(n)
    } else {
        seq![0xDBu8] + be32(n)
    }
}

/// A string: length header, then UTF-8 bytes.
pub open spec fn enc_str(s: Seq<char>) -> Seq<u8> {
    enc_strlen(encode_utf8(s).len()) + encode_utf8(s)
}

/// An array length header in its shortest form.
pub open spec fn enc_arraylen(n: nat) -> Seq<u8> {
    if n < 16 {
        seq![(0x90 + n) as u8]
    } else if n < 0x10000 {
        seq![0xDCu8] + be16(n)
    } else {
        seq![0xDDu8] + be32(n)
    }
}

pub open spec fn enc_bool(b: bool) -> Seq<u8> {
    if b {
        seq![0xC3u8]
    } else {
        seq![0xC2u8]
    }
}

/// A component: a three-element array of name, icon (or nil) and content.
pub open spec fn enc_component(c: ComponentV) -> Seq<u8> {
    seq![0x93u8] + enc_str(c.name) + (match c.icon {
        Option::Some(i) => enc_str(i),
        Option::None => seq![0xC0u8],
    }) + enc_str(c.content)
}

/// The components, one after the other.
pub open spec fn enc_components(cs: Seq<ComponentV>) -> Seq<u8>
    decreases cs.len(),
{
    if cs.len() == 0 {
        Seq::empty()
    } else {
        enc_components(cs.drop_last()) + enc_component(cs.last())
    }
}

/// The logo's lines, one after the other.
pub open spec fn enc_lines(ls: Seq<Seq<char>>) -> Seq<u8>
    decreases ls.len(),
{
    if ls.len() == 0 {
        Seq::empty()
    } else {
        enc_lines(ls.drop_last()) + enc_str(ls.last())
    }
}

/// The logo: a one-entry map from the variant index to its payload.
pub open spec fn enc_logo(l: LogoV) -> Seq<u8> {
    seq![0x81u8] + (match l {
        LogoV::Os => seq![0u8, 0xC0u8],
        LogoV::Custom(ls) => seq![1u8] + enc_arraylen(ls.len()) + enc_lines(ls),
        LogoV::Disabled => seq![2u8, 0xC0u8],
    })
}

/// A whole configuration: a five-element array of logo, components,
/// newline, spacing and oneline.
pub open spec fn enc_config(c: ConfigV) -> Seq<u8> {
    seq![0x95u8] + enc_logo(c.logo) + enc_arraylen(c.components.len()) + enc_components(
        c.components,
    ) + enc_bool(c.newline) + enc_uint(c.spacing) + enc_bool(c.oneline)
}

/// The string fits a four-byte length header.
pub open spec fn str_encodable(s: Seq<char>) -> bool {
    encode_utf8(s).len() < 0x100000000
}

/// Each of a component's strings fits a four-byte length header.
pub open spec fn component_encodable(c: ComponentV) -> bool {
    str_encodable(c.name) && str_encodable(c.content) && (match c.icon {
        Option::Some(i) => str_encodable(i),
        Option::None => true,
    })
}

pub open spec fn lines_encodable(ls: Seq<Seq<char>>) -> bool {
    forall|i: int| 0 <= i < ls.len() ==> str_encodable(#[trigger] ls[i])
}

pub open spec fn components_encodable(cs: Seq<ComponentV>) -> bool {
    forall|i: int| 0 <= i < cs.len() ==> component_encodable(#[trigger] cs[i])
}

pub open spec fn logo_encodable(l: LogoV) -> bool {
    match l {
        LogoV::Custom(ls) => ls.len() < 0x100000000 && lines_encodable(ls),
        _ => true,
    }
}

/// Every length in the configuration fits its widest header, and the
/// spacing fits the machine's word.
pub open spec fn msgpack_encodable(c: ConfigV) -> bool {
    &&& logo_encodable(c.logo)
    &&& c.components.len() < 0x100000000
    &&& components_encodable(c.components)
    &&& c.spacing <= usize::MAX
}

/// Append the big-endian bytes of `n` as a 16-bit number.
fn push_be16(out: &mut Vec<u8>, n: u64)
    requires
        n < 0x10000,
    ensures
        final(out)@ == old(out)@ + be16(n as nat),
{
    out.push((n / 0x100) as u8);
    out.push((n % 0x100) as u8);
    proof {
        assert(out@ =~= old(out)@ + be16(n as nat));
    }
}

/// Append the big-endian bytes of `n` as a 32-bit number.
fn push_be32(out: &mut Vec<u8>, n: u64)
    requires
        n < 0x100000000,
    ensures
        final(out)@ == old(out)@ + be32(n as nat),
{
    out.push((n / 0x1000000 % 0x100) as u8);
    out.push((n / 0x10000 % 0x100) as u8);
    out.push((n / 0x100 % 0x100) as u8);
    out.push((n % 0x100) as u8);
    proof {
        assert(out@ =~= old(out)@ + be32(n as nat));
    }
}

/// Append an unsigned integer in its shortest form.
fn push_uint(out: &mut Vec<u8>, n: u64)
    ensures
        final(out)@ == old(out)@ + enc_uint(n as nat),
{
    if n < 0x80 {
        out.push(n as u8);
        proof {
            assert(out@ =~= old(out)@ + enc_uint(n as nat));
        }
    } else if n < 0x100 {
        out.push(0xCC);
        out.push(n as u8);
        proof {
            assert(out@ =~= old(out)@ + enc_uint(n as nat));
        }
    } else if n < 0x10000 {
        out.push(0xCD);
        push_be16(out, n);
        proof {
            assert(out@ =~= old(out)@ + enc_uint(n as nat));
        }
    } else if n < 0x100000000 {
        out.push(0xCE);
        push_be32(out, n);
        proof {
            assert(out@ =~= old(out)@ + enc_uint(n as nat));
        }
    } else {
        out.push(0xCF);
        push_be32(out, n / 0x100000000);
        push_be32(out, n % 0x100000000);
        proof {
            assert(out@ =~= old(out)@ + enc_uint(n as nat));
        }
    }
}

/// Append a string: its length header, then its UTF-8 bytes.
fn push_str(out: &mut Vec<u8>, s: &str)
    requires
        str_encodable(s@),
    ensures
        final(out)@ == old(out)@ + enc_str(s@),
{
    let mut bytes = s.as_bytes_vec();
    let n = bytes.len();
    let ghost blen = encode_utf8(s@).len();
    if n < 32 {
        out.push(0xA0 + n as u8);
    } else if (n as u64) < 0x100 {
        out.push(0xD9);
        out.push(n as u8);
    } else if (n as u64) < 0x10000 {
        out.push(0xDA);
        push_be16(out, n as u64);
    } else {
        out.push(0xDB);
        push_be32(out, n as u64);
    }
    proof {
        assert(out@ =~= old(out)@ + enc_strlen(blen));
    }
    out.append(&mut bytes);
    proof {
        assert(out@ =~= old(out)@ + enc_str(s@));
    }
}

/// Append an array length header in its shortest form.
fn push_arraylen(out: &mut Vec<u8>, n: u64)
    requires
        n < 0x100000000,
    ensures
        final(out)@ == old(out)@ + enc_arraylen(n as nat),
{
    if n < 16 {
        out.push(0x90 + n as u8);
        proof {
            assert(out@ =~= old(out)@ + enc_arraylen(n as nat));
        }
    } else if n < 0x10000 {
        out.push(0xDC);
        push_be16(out, n);
        proof {
            assert(out@ =~= old(out)@ + enc_arraylen(n as nat));
        }
    } else {
        out.push(0xDD);
        push_be32(out, n);
        proof {
            assert(out@ =~= old(out)@ + enc_arraylen(n as nat));
        }
    }
}

impl Config {
    /// This configuration in the binary record format.
    pub fn to_msgpack(&self) -> (r: Vec<u8>)
        requires
            msgpack_encodable(self@),
        ensures
            r@ == enc_config(self@),
    {
        let ghost cv = self@;
        let mut out: Vec<u8> = Vec::new();
        out.push(0x95);
        proof {
            assert(out@ =~= seq![0x95u8]);
        }
        // logo
        out.push(0x81);
        match &self.logo {
            Logo::Os => {
                out.push(0);
                out.push(0xC0);
            },
            Logo::Custom(lines) => {
                out.push(1);
                push_arraylen(&mut out, lines.len() as u64);
                let ghost lv = lines@.map_values(|l: String| l@);
                let mut j: usize = 0;
                while j < lines.len()
                    invariant
                        j <= lines@.len(),
                        lv == lines@.map_values(|l: String| l@),
                        forall|i: int| 0 <= i < lv.len() ==> str_encodable(#[trigger] lv[i]),
                        out@ == seq![0x95u8, 0x81u8, 1u8] + enc_arraylen(lv.len()) + enc_lines(
                            lv.take(j as int),
                        ),
                    decreases lines@.len() - j,
                {
                    let ghost prev = out@;
                    proof {
                        assert(lines@[j as int]@ == lv[j as int]);
                        assert(str_encodable(lv[j as int]));
                    }
                    push_str(&mut out, lines[j].as_str());
                    proof {
                        let taken = lv.take(j + 1);
                        assert(taken.drop_last() =~= lv.take(j as int));
                        assert(taken.last() == lv[j as int]);
                        assert(out@ =~= seq![0x95u8, 0x81u8, 1u8] + enc_arraylen(lv.len())
                            + enc_lines(taken));
                    }
                    j += 1;
                }
                proof {
                    assert(lv.take(lv.len() as int) =~= lv);
                }
            },
            Logo::Disabled => {
                out.push(2);
                out.push(0xC0);
            },
        }
        proof {
            assert(out@ =~= seq![0x95u8] + enc_logo(cv.logo));
        }
        // components
        let ghost head = out@;
        push_arraylen(&mut out, self.components.len() as u64);
        let ghost cvs = cv.components;
        let mut ci: usize = 0;
        while ci < self.components.len()
            invariant
                ci <= self.components@.len(),
                cvs == self.components@.map_values(|c: Component| c@),
                msgpack_encodable(cv),
                cv.components == cvs,
                out@ == head + enc_arraylen(cvs.len()) + enc_components(cvs.take(ci as int)),
            decreases self.components@.len() - ci,
        {
            let c = &self.components[ci];
            let ghost cev = cvs[ci as int];
            let ghost prev = out@;
            proof {
                assert(self.components@[ci as int]@ == cev);
                assert(str_encodable(cev.name));
                assert(str_encodable(cev.content));
            }
            out.push(0x93);
            push_str(&mut out, c.name.as_str());
            match &c.icon {
                Some(i) => {
                    push_str(&mut out, i.as_str());
                },
                None => {
                    out.push(0xC0);
                },
            }
            push_str(&mut out, c.content.as_str());
            proof {
                assert(out@ =~= prev + enc_component(cev));
                let taken = cvs.take(ci + 1);
                assert(taken.drop_last() =~= cvs.take(ci as int));
                assert(taken.last() == cev);
                assert(out@ =~= head + enc_arraylen(cvs.len()) + enc_components(taken));
            }
            ci += 1;
        }
        proof {
            assert(cvs.take(cvs.len() as int) =~= cvs);
        }
        // newline, spacing, oneline
        out.push(if self.newline {
            0xC3
        } else {
            0xC2
        });
        push_uint(&mut out, self.spacing as u64);
        out.push(if self.oneline {
            0xC3
        } else {
            0xC2
        });
        proof {
            assert(out@ =~= enc_config(cv));
        }
        out
    }
}


/// `e` occurs in `b` starting at `pos`.
pub open spec fn enc_at(b: Seq<u8>, pos: int, e: Seq<u8>) -> bool {
    0 <= pos && pos + e.len() <= b.len() && b.subrange(pos, pos + e.len()) == e
}

/// A concatenation sits at `pos` exactly when its parts sit back to back.
proof fn lemma_enc_at_split(b: Seq<u8>, pos: int, e1: Seq<u8>, e2: Seq<u8>)
    requires
        enc_at(b, pos, e1 + e2),
    ensures
        enc_at(b, pos, e1),
        enc_at(b, pos + e1.len(), e2),
{
    let whole = b.subrange(pos, pos + (e1 + e2).len());
    assert(b.subrange(pos, pos + e1.len() as int) =~= whole.subrange(0, e1.len() as int));
    assert(whole.subrange(0, e1.len() as int) =~= e1);
    assert(b.subrange(pos + e1.len(), pos + e1.len() + e2.len()) =~= whole.subrange(
        e1.len() as int,
        (e1 + e2).len() as int,
    ));
    assert(whole.subrange(e1.len() as int, (e1 + e2).len() as int) =~= e2);
}

/// One byte of an encoding read back out of the buffer.
proof fn lemma_enc_at_byte(b: Seq<u8>, pos: int, e: Seq<u8>, k: int)
    requires
        enc_at(b, pos, e),
        0 <= k < e.len(),
    ensures
        b[pos + k] == e[k],
{
    assert(b.subrange(pos, pos + e.len())[k] == b[pos + k]);
}

/// Division stays under `c` as long as the dividend is under `c * d`.
proof fn lemma_div_under(x: int, c: int, d: int)
    requires
        0 <= x,
        0 < d,
        x < c * d,
    ensures
        x / d < c,
{
    vstd::arithmetic::mul::lemma_mul_is_commutative(c, d);
    vstd::arithmetic::div_mod::lemma_multiply_divide_lt(x, d, c);
}

/// A 16-bit number is its two big-endian bytes put back together.
proof fn lemma_be16_recon(v: nat)
    requires
        v < 0x10000,
    ensures
        v == (v / 0x100 % 0x100) * 0x100 + v % 0x100,
{
    lemma_fundamental_div_mod(v as int, 0x100);
    lemma_div_under(v as int, 0x100, 0x100);
    lemma_small_mod((v / 0x100) as nat, 0x100);
}

/// A 32-bit number is its four big-endian bytes put back together.
proof fn lemma_be32_recon(v: nat)
    requires
        v < 0x100000000,
    ensures
        v == (v / 0x1000000 % 0x100) * 0x1000000 + (v / 0x10000 % 0x100) * 0x10000 + (v / 0x100
            % 0x100) * 0x100 + v % 0x100,
{
    lemma_fundamental_div_mod(v as int, 0x100);
    lemma_fundamental_div_mod(v as int / 0x100, 0x100);
    lemma_div_denominator(v as int, 0x100, 0x100);
    lemma_fundamental_div_mod(v as int / 0x10000, 0x100);
    lemma_div_denominator(v as int, 0x10000, 0x100);
    lemma_div_under(v as int, 0x100, 0x1000000);
    lemma_small_mod((v / 0x1000000) as nat, 0x100);
    assert(v as int / 0x100 / 0x100 == v as int / 0x10000);
    assert(v as int / 0x10000 / 0x100 == v as int / 0x1000000);
}

/// What the buffer holds when an integer's shortest encoding sits at
/// `pos`: the tag byte, the room it takes, and the value put back
/// together from the bytes.
/// The widest form read back: tag, room, and the value reassembled.
#[verifier::rlimit(50)]
#[verifier::spinoff_prover]
proof fn lemma_enc_uint_at_wide(b: Seq<u8>, pos: int, v: nat)
    requires
        0x100000000 <= v <= u64::MAX,
        enc_at(b, pos, enc_uint(v)),
    ensures
        b[pos] == 0xCF && pos + 9 <= b.len() && v == ((b[pos + 1] as nat) * 0x1000000 + (b[pos
            + 2] as nat) * 0x10000 + (b[pos + 3] as nat) * 0x100 + (b[pos + 4] as nat))
            * 0x100000000 + ((b[pos + 5] as nat) * 0x1000000 + (b[pos + 6] as nat) * 0x10000 + (
        b[pos + 7] as nat) * 0x100 + (b[pos + 8] as nat)),
{
    let e = enc_uint(v);
    let hi = v / 0x100000000;
    let lo = v % 0x100000000;
    lemma_enc_at_byte(b, pos, e, 0);
    lemma_enc_at_byte(b, pos, e, 1);
    lemma_enc_at_byte(b, pos, e, 2);
    lemma_enc_at_byte(b, pos, e, 3);
    lemma_enc_at_byte(b, pos, e, 4);
    lemma_enc_at_byte(b, pos, e, 5);
    lemma_enc_at_byte(b, pos, e, 6);
    lemma_enc_at_byte(b, pos, e, 7);
    lemma_enc_at_byte(b, pos, e, 8);
    lemma_div_under(v as int, 0x100000000, 0x100000000);
    lemma_be32_recon(hi);
    lemma_be32_recon(lo);
    lemma_fundamental_div_mod(v as int, 0x100000000);
}

#[verifier::rlimit(50)]
#[verifier::spinoff_prover]
proof fn lemma_enc_uint_at(b: Seq<u8>, pos: int, v: nat)
    requires
        v <= u64::MAX,
        enc_at(b, pos, enc_uint(v)),
    ensures
        pos < b.len(),
        v < 0x80 ==> b[pos] == v,
        0x80 <= v < 0x100 ==> b[pos] == 0xCC && pos + 2 <= b.len() && b[pos + 1] == v,
        0x100 <= v < 0x10000 ==> b[pos] == 0xCD && pos + 3 <= b.len() && v == (b[pos + 1] as nat)
            * 0x100 + (b[pos + 2] as nat),
        0x10000 <= v < 0x100000000 ==> b[pos] == 0xCE && pos + 5 <= b.len() && v == (b[pos
            + 1] as nat) * 0x1000000 + (b[pos + 2] as nat) * 0x10000 + (b[pos + 3] as nat) * 0x100
            + (b[pos + 4] as nat),
        0x100000000 <= v ==> b[pos] == 0xCF && pos + 9 <= b.len() && v == ((b[pos + 1] as nat)
            * 0x1000000 + (b[pos + 2] as nat) * 0x10000 + (b[pos + 3] as nat) * 0x100 + (b[pos
            + 4] as nat)) * 0x100000000 + ((b[pos + 5] as nat) * 0x1000000 + (b[pos
            + 6] as nat) * 0x10000 + (b[pos + 7] as nat) * 0x100 + (b[pos + 8] as nat)),
{
    let e = enc_uint(v);
    lemma_enc_at_byte(b, pos, e, 0);
    if v < 0x80 {
    } else if v < 0x100 {
        lemma_enc_at_byte(b, pos, e, 1);
    } else if v < 0x10000 {
        lemma_enc_at_byte(b, pos, e, 1);
        lemma_enc_at_byte(b, pos, e, 2);
        lemma_be16_recon(v);
    } else if v < 0x100000000 {
        lemma_enc_at_byte(b, pos, e, 1);
        lemma_enc_at_byte(b, pos, e, 2);
        lemma_enc_at_byte(b, pos, e, 3);
        lemma_enc_at_byte(b, pos, e, 4);
        lemma_be32_recon(v);
    } else {
        lemma_enc_uint_at_wide(b, pos, v);
    }
}

/// Two integers whose shortest encodings share a start are the same
/// integer.
proof fn lemma_uint_at_unique(b: Seq<u8>, pos: int, v1: nat, v2: nat)
    requires
        v1 <= u64::MAX,
        v2 <= u64::MAX,
        enc_at(b, pos, enc_uint(v1)),
        enc_at(b, pos, enc_uint(v2)),
    ensures
        v1 == v2,
{
    lemma_enc_uint_at(b, pos, v1);
    lemma_enc_uint_at(b, pos, v2);
}

/// What the buffer holds when a string length header sits at `pos`.
proof fn lemma_enc_strlen_at(b: Seq<u8>, pos: int, n: nat)
    requires
        n < 0x100000000,
        enc_at(b, pos, enc_strlen(n)),
    ensures
        pos < b.len(),
        n < 32 ==> b[pos] == 0xA0 + n,
        32 <= n < 0x100 ==> b[pos] == 0xD9 && pos + 2 <= b.len() && b[pos + 1] == n,
        0x100 <= n < 0x10000 ==> b[pos] == 0xDA && pos + 3 <= b.len() && n == (b[pos + 1] as nat)
            * 0x100 + (b[pos + 2] as nat),
        0x10000 <= n ==> b[pos] == 0xDB && pos + 5 <= b.len() && n == (b[pos + 1] as nat)
            * 0x1000000 + (b[pos + 2] as nat) * 0x10000 + (b[pos + 3] as nat) * 0x100 + (b[pos
            + 4] as nat),
        0xA0 <= b[pos] < 0xC0 || b[pos] == 0xD9 || b[pos] == 0xDA || b[pos] == 0xDB,
{
    let e = enc_strlen(n);
    lemma_enc_at_byte(b, pos, e, 0);
    if n < 32 {
    } else if n < 0x100 {
        lemma_enc_at_byte(b, pos, e, 1);
    } else if n < 0x10000 {
        lemma_enc_at_byte(b, pos, e, 1);
        lemma_enc_at_byte(b, pos, e, 2);
        lemma_be16_recon(n);
    } else {
        lemma_enc_at_byte(b, pos, e, 1);
        lemma_enc_at_byte(b, pos, e, 2);
        lemma_enc_at_byte(b, pos, e, 3);
        lemma_enc_at_byte(b, pos, e, 4);
        lemma_be32_recon(n);
    }
}

/// Two string length headers that share a start carry the same length.
proof fn lemma_strlen_at_unique(b: Seq<u8>, pos: int, n1: nat, n2: nat)
    requires
        n1 < 0x100000000,
        n2 < 0x100000000,
        enc_at(b, pos, enc_strlen(n1)),
        enc_at(b, pos, enc_strlen(n2)),
    ensures
        n1 == n2,
{
    lemma_enc_strlen_at(b, pos, n1);
    lemma_enc_strlen_at(b, pos, n2);
}

/// What the buffer holds when an array length header sits at `pos`.
proof fn lemma_enc_arraylen_at(b: Seq<u8>, pos: int, n: nat)
    requires
        n < 0x100000000,
        enc_at(b, pos, enc_arraylen(n)),
    ensures
        pos < b.len(),
        n < 16 ==> b[pos] == 0x90 + n,
        16 <= n < 0x10000 ==> b[pos] == 0xDC && pos + 3 <= b.len() && n == (b[pos + 1] as nat)
            * 0x100 + (b[pos + 2] as nat),
        0x10000 <= n ==> b[pos] == 0xDD && pos + 5 <= b.len() && n == (b[pos + 1] as nat)
            * 0x1000000 + (b[pos + 2] as nat) * 0x10000 + (b[pos + 3] as nat) * 0x100 + (b[pos
            + 4] as nat),
{
    let e = enc_arraylen(n);
    lemma_enc_at_byte(b, pos, e, 0);
    if n < 16 {
    } else if n < 0x10000 {
        lemma_enc_at_byte(b, pos, e, 1);
        lemma_enc_at_byte(b, pos, e, 2);
        lemma_be16_recon(n);
    } else {
        lemma_enc_at_byte(b, pos, e, 1);
        lemma_enc_at_byte(b, pos, e, 2);
        lemma_enc_at_byte(b, pos, e, 3);
        lemma_enc_at_byte(b, pos, e, 4);
        lemma_be32_recon(n);
    }
}

/// Two array length headers that share a start carry the same length.
proof fn lemma_arraylen_at_unique(b: Seq<u8>, pos: int, n1: nat, n2: nat)
    requires
        n1 < 0x100000000,
        n2 < 0x100000000,
        enc_at(b, pos, enc_arraylen(n1)),
        enc_at(b, pos, enc_arraylen(n2)),
    ensures
        n1 == n2,
{
    lemma_enc_arraylen_at(b, pos, n1);
    lemma_enc_arraylen_at(b, pos, n2);
}

/// A string's encoding splits into its header and its UTF-8 bytes, and
/// starts with a header tag, never with the nil byte.
proof fn lemma_enc_str_at(b: Seq<u8>, pos: int, s: Seq<char>)
    requires
        str_encodable(s),
        enc_at(b, pos, enc_str(s)),
    ensures
        enc_at(b, pos, enc_strlen(encode_utf8(s).len())),
        enc_at(b, pos + enc_strlen(encode_utf8(s).len()).len(), encode_utf8(s)),
        pos < b.len() && b[pos] != 0xC0,
{
    lemma_enc_at_split(b, pos, enc_strlen(encode_utf8(s).len()), encode_utf8(s));
    lemma_enc_strlen_at(b, pos, encode_utf8(s).len());
}

/// Two strings whose encodings share a start are the same string.
proof fn lemma_str_at_unique(b: Seq<u8>, pos: int, s1: Seq<char>, s2: Seq<char>)
    requires
        str_encodable(s1),
        str_encodable(s2),
        enc_at(b, pos, enc_str(s1)),
        enc_at(b, pos, enc_str(s2)),
    ensures
        s1 == s2,
        enc_str(s1).len() == enc_str(s2).len(),
{
    let n1 = encode_utf8(s1).len();
    let n2 = encode_utf8(s2).len();
    lemma_enc_str_at(b, pos, s1);
    lemma_enc_str_at(b, pos, s2);
    lemma_strlen_at_unique(b, pos, n1, n2);
    let h = enc_strlen(n1).len() as int;
    assert(encode_utf8(s1) == b.subrange(pos + h, pos + h + n1));
    assert(encode_utf8(s2) == b.subrange(pos + h, pos + h + n1));
    vstd::utf8::encode_utf8_decode_utf8(s1);
    vstd::utf8::encode_utf8_decode_utf8(s2);
}

/// The lines' encoding peels off its first string.
proof fn lemma_enc_lines_first(ls: Seq<Seq<char>>)
    requires
        ls.len() > 0,
    ensures
        enc_lines(ls) == enc_str(ls.first()) + enc_lines(ls.drop_first()),
    decreases ls.len(),
{
    if ls.len() == 1 {
        assert(ls.drop_last() =~= Seq::<Seq<char>>::empty());
        assert(ls.drop_first() =~= Seq::<Seq<char>>::empty());
        assert(enc_lines(ls) =~= enc_str(ls.first()) + enc_lines(ls.drop_first()));
    } else {
        lemma_enc_lines_first(ls.drop_last());
        assert(ls.drop_last().first() == ls.first());
        assert(ls.drop_last().drop_first() =~= ls.drop_first().drop_last());
        assert(ls.drop_first().last() == ls.last());
        assert(enc_lines(ls) =~= enc_str(ls.first()) + enc_lines(ls.drop_first()));
    }
}

/// Two equally long line lists whose encodings share a start are equal.
proof fn lemma_lines_at_unique(b: Seq<u8>, pos: int, ls1: Seq<Seq<char>>, ls2: Seq<Seq<char>>)
    requires
        ls1.len() == ls2.len(),
        lines_encodable(ls1),
        lines_encodable(ls2),
        enc_at(b, pos, enc_lines(ls1)),
        enc_at(b, pos, enc_lines(ls2)),
    ensures
        ls1 == ls2,
    decreases ls1.len(),
{
    if ls1.len() == 0 {
        assert(ls1 =~= ls2);
    } else {
        lemma_enc_lines_first(ls1);
        lemma_enc_lines_first(ls2);
        lemma_enc_at_split(b, pos, enc_str(ls1.first()), enc_lines(ls1.drop_first()));
        lemma_enc_at_split(b, pos, enc_str(ls2.first()), enc_lines(ls2.drop_first()));
        lemma_str_at_unique(b, pos, ls1.first(), ls2.first());
        assert(lines_encodable(ls1.drop_first())) by {
            assert forall|i: int| 0 <= i < ls1.drop_first().len() implies str_encodable(
                #[trigger] ls1.drop_first()[i],
            ) by {
                assert(ls1.drop_first()[i] == ls1[i + 1]);
            }
        }
        assert(lines_encodable(ls2.drop_first())) by {
            assert forall|i: int| 0 <= i < ls2.drop_first().len() implies str_encodable(
                #[trigger] ls2.drop_first()[i],
            ) by {
                assert(ls2.drop_first()[i] == ls2[i + 1]);
            }
        }
        lemma_lines_at_unique(
            b,
            pos + enc_str(ls1.first()).len(),
            ls1.drop_first(),
            ls2.drop_first(),
        );
        assert forall|i: int| 0 <= i < ls1.len() implies ls1[i] == ls2[i] by {
            if i > 0 {
                assert(ls1.drop_first()[i - 1] == ls2.drop_first()[i - 1]);
            }
        }
        assert(ls1 =~= ls2);
    }
}

/// A component's encoding splits into its four parts.
proof fn lemma_enc_component_at(b: Seq<u8>, pos: int, c: ComponentV)
    requires
        component_encodable(c),
        enc_at(b, pos, enc_component(c)),
    ensures
        pos < b.len() && b[pos] == 0x93,
        enc_at(b, pos + 1, enc_str(c.name)),
        enc_at(
            b,
            pos + 1 + enc_str(c.name).len(),
            match c.icon {
                Option::Some(i) => enc_str(i),
                Option::None => seq![0xC0u8],
            },
        ),
        enc_at(
            b,
            pos + 1 + enc_str(c.name).len() + (match c.icon {
                Option::Some(i) => enc_str(i),
                Option::None => seq![0xC0u8],
            }).len(),
            enc_str(c.content),
        ),
{
    let e_icon = match c.icon {
        Option::Some(i) => enc_str(i),
        Option::None => seq![0xC0u8],
    };
    assert(enc_component(c) =~= (seq![0x93u8] + enc_str(c.name) + e_icon) + enc_str(c.content));
    lemma_enc_at_split(b, pos, seq![0x93u8] + enc_str(c.name) + e_icon, enc_str(c.content));
    assert(seq![0x93u8] + enc_str(c.name) + e_icon =~= (seq![0x93u8] + enc_str(c.name)) + e_icon);
    lemma_enc_at_split(b, pos, seq![0x93u8] + enc_str(c.name), e_icon);
    lemma_enc_at_split(b, pos, seq![0x93u8], enc_str(c.name));
    lemma_enc_at_byte(b, pos, seq![0x93u8], 0);
}

/// Two components whose encodings share a start are the same component.
proof fn lemma_component_at_unique(b: Seq<u8>, pos: int, c1: ComponentV, c2: ComponentV)
    requires
        component_encodable(c1),
        component_encodable(c2),
        enc_at(b, pos, enc_component(c1)),
        enc_at(b, pos, enc_component(c2)),
    ensures
        c1 == c2,
        enc_component(c1).len() == enc_component(c2).len(),
{
    lemma_enc_component_at(b, pos, c1);
    lemma_enc_component_at(b, pos, c2);
    lemma_str_at_unique(b, pos + 1, c1.name, c2.name);
    let pi = pos + 1 + enc_str(c1.name).len();
    match (c1.icon, c2.icon) {
        (Option::Some(i1), Option::Some(i2)) => {
            lemma_str_at_unique(b, pi, i1, i2);
        },
        (Option::Some(i1), Option::None) => {
            lemma_enc_str_at(b, pi, i1);
            lemma_enc_at_byte(b, pi, seq![0xC0u8], 0);
        },
        (Option::None, Option::Some(i2)) => {
            lemma_enc_str_at(b, pi, i2);
            lemma_enc_at_byte(b, pi, seq![0xC0u8], 0);
        },
        (Option::None, Option::None) => {},
    }
    let e_icon = match c1.icon {
        Option::Some(i) => enc_str(i),
        Option::None => seq![0xC0u8],
    };
    lemma_str_at_unique(b, pi + e_icon.len(), c1.content, c2.content);
}

/// The components' encoding peels off its first component.
proof fn lemma_enc_components_first(cs: Seq<ComponentV>)
    requires
        cs.len() > 0,
    ensures
        enc_components(cs) == enc_component(cs.first()) + enc_components(cs.drop_first()),
    decreases cs.len(),
{
    if cs.len() == 1 {
        assert(cs.drop_last() =~= Seq::<ComponentV>::empty());
        assert(cs.drop_first() =~= Seq::<ComponentV>::empty());
        assert(enc_components(cs) =~= enc_component(cs.first()) + enc_components(cs.drop_first()));
    } else {
        lemma_enc_components_first(cs.drop_last());
        assert(cs.drop_last().first() == cs.first());
        assert(cs.drop_last().drop_first() =~= cs.drop_first().drop_last());
        assert(cs.drop_first().last() == cs.last());
        assert(enc_components(cs) =~= enc_component(cs.first()) + enc_components(cs.drop_first()));
    }
}

/// Two equally long component lists whose encodings share a start are
/// equal.
proof fn lemma_components_at_unique(b: Seq<u8>, pos: int, cs1: Seq<ComponentV>, cs2: Seq<ComponentV>)
    requires
        cs1.len() == cs2.len(),
        components_encodable(cs1),
        components_encodable(cs2),
        enc_at(b, pos, enc_components(cs1)),
        enc_at(b, pos, enc_components(cs2)),
    ensures
        cs1 == cs2,
    decreases cs1.len(),
{
    if cs1.len() == 0 {
        assert(cs1 =~= cs2);
    } else {
        lemma_enc_components_first(cs1);
        lemma_enc_components_first(cs2);
        lemma_enc_at_split(b, pos, enc_component(cs1.first()), enc_components(cs1.drop_first()));
        lemma_enc_at_split(b, pos, enc_component(cs2.first()), enc_components(cs2.drop_first()));
        lemma_component_at_unique(b, pos, cs1.first(), cs2.first());
        assert(components_encodable(cs1.drop_first())) by {
            assert forall|i: int| 0 <= i < cs1.drop_first().len() implies component_encodable(
                #[trigger] cs1.drop_first()[i],
            ) by {
                assert(cs1.drop_first()[i] == cs1[i + 1]);
            }
        }
        assert(components_encodable(cs2.drop_first())) by {
            assert forall|i: int| 0 <= i < cs2.drop_first().len() implies component_encodable(
                #[trigger] cs2.drop_first()[i],
            ) by {
                assert(cs2.drop_first()[i] == cs2[i + 1]);
            }
        }
        lemma_components_at_unique(
            b,
            pos + enc_component(cs1.first()).len(),
            cs1.drop_first(),
            cs2.drop_first(),
        );
        assert forall|i: int| 0 <= i < cs1.len() implies cs1[i] == cs2[i] by {
            if i > 0 {
                assert(cs1.drop_first()[i - 1] == cs2.drop_first()[i - 1]);
            }
        }
        assert(cs1 =~= cs2);
    }
}

/// A logo's encoding splits after its map header and variant byte.
proof fn lemma_enc_logo_at(b: Seq<u8>, pos: int, l: LogoV)
    requires
        logo_encodable(l),
        enc_at(b, pos, enc_logo(l)),
    ensures
        pos + 2 <= b.len() && b[pos] == 0x81,
        b[pos + 1] == (match l {
            LogoV::Os => 0u8,
            LogoV::Custom(ls) => 1u8,
            LogoV::Disabled => 2u8,
        }),
        l is Os || l is Disabled ==> pos + 3 <= b.len() && b[pos + 2] == 0xC0,
        l matches LogoV::Custom(ls) ==> enc_at(b, pos + 2, enc_arraylen(ls.len())) && enc_at(
            b,
            pos + 2 + enc_arraylen(ls.len()).len(),
            enc_lines(ls),
        ),
{
    match l {
        LogoV::Os => {
            assert(enc_logo(l) =~= seq![0x81u8, 0u8, 0xC0u8]);
            lemma_enc_at_byte(b, pos, enc_logo(l), 0);
            lemma_enc_at_byte(b, pos, enc_logo(l), 1);
            lemma_enc_at_byte(b, pos, enc_logo(l), 2);
        },
        LogoV::Disabled => {
            assert(enc_logo(l) =~= seq![0x81u8, 2u8, 0xC0u8]);
            lemma_enc_at_byte(b, pos, enc_logo(l), 0);
            lemma_enc_at_byte(b, pos, enc_logo(l), 1);
            lemma_enc_at_byte(b, pos, enc_logo(l), 2);
        },
        LogoV::Custom(ls) => {
            assert(enc_logo(l) =~= (seq![0x81u8, 1u8] + enc_arraylen(ls.len())) + enc_lines(ls));
            lemma_enc_at_split(b, pos, seq![0x81u8, 1u8] + enc_arraylen(ls.len()), enc_lines(ls));
            lemma_enc_at_split(b, pos, seq![0x81u8, 1u8], enc_arraylen(ls.len()));
            lemma_enc_at_byte(b, pos, seq![0x81u8, 1u8], 0);
            lemma_enc_at_byte(b, pos, seq![0x81u8, 1u8], 1);
        },
    }
}

/// Two logos whose encodings share a start are the same logo.
proof fn lemma_logo_at_unique(b: Seq<u8>, pos: int, l1: LogoV, l2: LogoV)
    requires
        logo_encodable(l1),
        logo_encodable(l2),
        enc_at(b, pos, enc_logo(l1)),
        enc_at(b, pos, enc_logo(l2)),
    ensures
        l1 == l2,
        enc_logo(l1).len() == enc_logo(l2).len(),
{
    lemma_enc_logo_at(b, pos, l1);
    lemma_enc_logo_at(b, pos, l2);
    match (l1, l2) {
        (LogoV::Custom(ls1), LogoV::Custom(ls2)) => {
            lemma_arraylen_at_unique(b, pos + 2, ls1.len(), ls2.len());
            lemma_lines_at_unique(b, pos + 2 + enc_arraylen(ls1.len()).len(), ls1, ls2);
        },
        _ => {},
    }
}

/// Relies on `String::from_utf8`: the string whose UTF-8 encoding is the
/// given bytes, and nothing for bytes that are not valid UTF-8.
#[verifier::external_body]
fn string_from_utf8(bytes: Vec<u8>) -> (r: Option<String>)
    ensures
        match r {
            Option::Some(s) => encode_utf8(s@) == bytes@,
            Option::None => !vstd::utf8::valid_utf8(bytes@),
        },
{
    String::from_utf8(bytes).ok()
}

/// The big-endian bytes of a 16-bit number put back together.
proof fn lemma_be16_of(b1: u8, b2: u8, v: nat)
    requires
        v == b1 * 0x100 + b2,
    ensures
        be16(v) == seq![b1, b2],
{
    assert(v / 0x100 % 0x100 == b1 && v % 0x100 == b2) by (nonlinear_arith)
        requires
            v == b1 * 0x100 + b2,
            b1 < 0x100,
            b2 < 0x100,
    ;
    assert(be16(v) =~= seq![b1, b2]);
}

/// The big-endian bytes of a 32-bit number put back together.
proof fn lemma_be32_of(b1: u8, b2: u8, b3: u8, b4: u8, v: nat)
    requires
        v == b1 * 0x1000000 + b2 * 0x10000 + b3 * 0x100 + b4,
    ensures
        be32(v) == seq![b1, b2, b3, b4],
{
    assert(v / 0x1000000 % 0x100 == b1 && v / 0x10000 % 0x100 == b2 && v / 0x100 % 0x100 == b3
        && v % 0x100 == b4) by (nonlinear_arith)
        requires
            v == b1 * 0x1000000 + b2 * 0x10000 + b3 * 0x100 + b4,
            b1 < 0x100,
            b2 < 0x100,
            b3 < 0x100,
            b4 < 0x100,
    ;
    assert(be32(v) =~= seq![b1, b2, b3, b4]);
}

/// Read an unsigned integer in its shortest form.
#[verifier::rlimit(50)]
fn parse_uint(buf: &Vec<u8>, pos: usize) -> (r: Result<(u64, usize), MsgpackError>)
    requires
        pos <= buf@.len(),
    ensures
        r matches Ok(p) ==> pos < p.1 <= buf@.len() && buf@.subrange(pos as int, p.1 as int)
            == enc_uint(p.0 as nat),
        r is Err ==> forall|v: nat| v <= u64::MAX ==> !enc_at(buf@, pos as int, enc_uint(v)),
{
    if buf.len() - pos < 1 {
        proof {
            assert forall|v: nat| v <= u64::MAX implies !enc_at(buf@, pos as int, enc_uint(v)) by {
                if enc_at(buf@, pos as int, enc_uint(v)) {
                    lemma_enc_uint_at(buf@, pos as int, v);
                }
            }
        }
        return Err(MsgpackError::Malformed);
    }
    let b0 = buf[pos];
    if b0 < 0x80 {
        proof {
            assert(buf@.subrange(pos as int, pos as int + 1) =~= enc_uint(b0 as nat));
        }
        Ok((b0 as u64, pos + 1))
    } else if b0 == 0xCC {
        if buf.len() - pos < 2 {
            proof {
                assert forall|v: nat| v <= u64::MAX implies !enc_at(buf@, pos as int, enc_uint(v)) by {
                    if enc_at(buf@, pos as int, enc_uint(v)) {
                        lemma_enc_uint_at(buf@, pos as int, v);
                    }
                }
            }
            return Err(MsgpackError::Malformed);
        }
        let v = buf[pos + 1];
        if v < 0x80 {
            proof {
                assert forall|v: nat| v <= u64::MAX implies !enc_at(buf@, pos as int, enc_uint(v)) by {
                    if enc_at(buf@, pos as int, enc_uint(v)) {
                        lemma_enc_uint_at(buf@, pos as int, v);
                    }
                }
            }
            return Err(MsgpackError::Malformed);
        }
        proof {
            assert(buf@.subrange(pos as int, pos as int + 2) =~= enc_uint(v as nat));
        }
        Ok((v as u64, pos + 2))
    } else if b0 == 0xCD {
        if buf.len() - pos < 3 {
            proof {
                assert forall|v: nat| v <= u64::MAX implies !enc_at(buf@, pos as int, enc_uint(v)) by {
                    if enc_at(buf@, pos as int, enc_uint(v)) {
                        lemma_enc_uint_at(buf@, pos as int, v);
                    }
                }
            }
            return Err(MsgpackError::Malformed);
        }
        let v = (buf[pos + 1] as u64) * 0x100 + (buf[pos + 2] as u64);
        if v < 0x100 {
            proof {
                assert forall|v: nat| v <= u64::MAX implies !enc_at(buf@, pos as int, enc_uint(v)) by {
                    if enc_at(buf@, pos as int, enc_uint(v)) {
                        lemma_enc_uint_at(buf@, pos as int, v);
                    }
                }
            }
            return Err(MsgpackError::Malformed);
        }
        proof {
            lemma_be16_of(buf[pos + 1], buf[pos + 2], v as nat);
            assert(buf@.subrange(pos as int, pos as int + 3) =~= enc_uint(v as nat));
        }
        Ok((v, pos + 3))
    } else if b0 == 0xCE {
        if buf.len() - pos < 5 {
            proof {
                assert forall|v: nat| v <= u64::MAX implies !enc_at(buf@, pos as int, enc_uint(v)) by {
                    if enc_at(buf@, pos as int, enc_uint(v)) {
                        lemma_enc_uint_at(buf@, pos as int, v);
                    }
                }
            }
            return Err(MsgpackError::Malformed);
        }
        let v = (buf[pos + 1] as u64) * 0x1000000 + (buf[pos + 2] as u64) * 0x10000 + (buf[pos
            + 3] as u64) * 0x100 + (buf[pos + 4] as u64);
        if v < 0x10000 {
            proof {
                assert forall|v: nat| v <= u64::MAX implies !enc_at(buf@, pos as int, enc_uint(v)) by {
                    if enc_at(buf@, pos as int, enc_uint(v)) {
                        lemma_enc_uint_at(buf@, pos as int, v);
                    }
                }
            }
            return Err(MsgpackError::Malformed);
        }
        proof {
            lemma_be32_of(buf[pos + 1], buf[pos + 2], buf[pos + 3], buf[pos + 4], v as nat);
            assert(buf@.subrange(pos as int, pos as int + 5) =~= enc_uint(v as nat));
        }
        Ok((v, pos + 5))
    } else if b0 == 0xCF {
        if buf.len() - pos < 9 {
            proof {
                assert forall|v: nat| v <= u64::MAX implies !enc_at(buf@, pos as int, enc_uint(v)) by {
                    if enc_at(buf@, pos as int, enc_uint(v)) {
                        lemma_enc_uint_at(buf@, pos as int, v);
                    }
                }
            }
            return Err(MsgpackError::Malformed);
        }
        let hi = (buf[pos + 1] as u64) * 0x1000000 + (buf[pos + 2] as u64) * 0x10000 + (buf[pos
            + 3] as u64) * 0x100 + (buf[pos + 4] as u64);
        let lo = (buf[pos + 5] as u64) * 0x1000000 + (buf[pos + 6] as u64) * 0x10000 + (buf[pos
            + 7] as u64) * 0x100 + (buf[pos + 8] as u64);
        let v = hi * 0x100000000 + lo;
        if v < 0x100000000 {
            proof {
                assert forall|v: nat| v <= u64::MAX implies !enc_at(buf@, pos as int, enc_uint(v)) by {
                    if enc_at(buf@, pos as int, enc_uint(v)) {
                        lemma_enc_uint_at(buf@, pos as int, v);
                    }
                }
            }
            return Err(MsgpackError::Malformed);
        }
        proof {
            assert(v as nat / 0x100000000 == hi as nat && v as nat % 0x100000000 == lo as nat)
                by (nonlinear_arith)
                requires
                    v == hi * 0x100000000 + lo,
                    hi < 0x100000000,
                    lo < 0x100000000,
            ;
            lemma_be32_of(buf[pos + 1], buf[pos + 2], buf[pos + 3], buf[pos + 4], hi as nat);
            lemma_be32_of(buf[pos + 5], buf[pos + 6], buf[pos + 7], buf[pos + 8], lo as nat);
            assert(buf@.subrange(pos as int, pos as int + 9) =~= enc_uint(v as nat));
        }
        Ok((v, pos + 9))
    } else {
        proof {
            assert forall|v: nat| v <= u64::MAX implies !enc_at(buf@, pos as int, enc_uint(v)) by {
                if enc_at(buf@, pos as int, enc_uint(v)) {
                    lemma_enc_uint_at(buf@, pos as int, v);
                }
            }
        }
        Err(MsgpackError::Malformed)
    }
}

/// Read a string length header in its shortest form.
#[verifier::rlimit(50)]
fn parse_strlen(buf: &Vec<u8>, pos: usize) -> (r: Result<(u64, usize), MsgpackError>)
    requires
        pos <= buf@.len(),
    ensures
        r matches Ok(p) ==> pos < p.1 <= buf@.len() && p.0 < 0x100000000 && buf@.subrange(
            pos as int,
            p.1 as int,
        ) == enc_strlen(p.0 as nat),
        r is Err ==> forall|n: nat| n < 0x100000000 ==> !enc_at(buf@, pos as int, enc_strlen(n)),
{
    if buf.len() - pos < 1 {
        proof {
            assert forall|n: nat| n < 0x100000000 implies !enc_at(buf@, pos as int, enc_strlen(n)) by {
                if enc_at(buf@, pos as int, enc_strlen(n)) {
                    lemma_enc_strlen_at(buf@, pos as int, n);
                }
            }
        }
        return Err(MsgpackError::Malformed);
    }
    let b0 = buf[pos];
    if 0xA0 <= b0 && b0 < 0xC0 {
        let n = b0 - 0xA0;
        proof {
            assert(buf@.subrange(pos as int, pos as int + 1) =~= enc_strlen(n as nat));
        }
        Ok((n as u64, pos + 1))
    } else if b0 == 0xD9 {
        if buf.len() - pos < 2 {
            proof {
                assert forall|n: nat| n < 0x100000000 implies !enc_at(buf@, pos as int, enc_strlen(n)) by {
                    if enc_at(buf@, pos as int, enc_strlen(n)) {
                        lemma_enc_strlen_at(buf@, pos as int, n);
                    }
                }
            }
            return Err(MsgpackError::Malformed);
        }
        let n = buf[pos + 1];
        if n < 32 {
            proof {
                assert forall|n: nat| n < 0x100000000 implies !enc_at(buf@, pos as int, enc_strlen(n)) by {
                    if enc_at(buf@, pos as int, enc_strlen(n)) {
                        lemma_enc_strlen_at(buf@, pos as int, n);
                    }
                }
            }
            return Err(MsgpackError::Malformed);
        }
        proof {
            assert(buf@.subrange(pos as int, pos as int + 2) =~= enc_strlen(n as nat));
        }
        Ok((n as u64, pos + 2))
    } else if b0 == 0xDA {
        if buf.len() - pos < 3 {
            proof {
                assert forall|n: nat| n < 0x100000000 implies !enc_at(buf@, pos as int, enc_strlen(n)) by {
                    if enc_at(buf@, pos as int, enc_strlen(n)) {
                        lemma_enc_strlen_at(buf@, pos as int, n);
                    }
                }
            }
            return Err(MsgpackError::Malformed);
        }
        let n = (buf[pos + 1] as u64) * 0x100 + (buf[pos + 2] as u64);
        if n < 0x100 {
            proof {
                assert forall|n: nat| n < 0x100000000 implies !enc_at(buf@, pos as int, enc_strlen(n)) by {
                    if enc_at(buf@, pos as int, enc_strlen(n)) {
                        lemma_enc_strlen_at(buf@, pos as int, n);
                    }
                }
            }
            return Err(MsgpackError::Malformed);
        }
        proof {
            lemma_be16_of(buf[pos + 1], buf[pos + 2], n as nat);
            assert(buf@.subrange(pos as int, pos as int + 3) =~= enc_strlen(n as nat));
        }
        Ok((n, pos + 3))
    } else if b0 == 0xDB {
        if buf.len() - pos < 5 {
            proof {
                assert forall|n: nat| n < 0x100000000 implies !enc_at(buf@, pos as int, enc_strlen(n)) by {
                    if enc_at(buf@, pos as int, enc_strlen(n)) {
                        lemma_enc_strlen_at(buf@, pos as int, n);
                    }
                }
            }
            return Err(MsgpackError::Malformed);
        }
        let n = (buf[pos + 1] as u64) * 0x1000000 + (buf[pos + 2] as u64) * 0x10000 + (buf[pos
            + 3] as u64) * 0x100 + (buf[pos + 4] as u64);
        if n < 0x10000 {
            proof {
                assert forall|n: nat| n < 0x100000000 implies !enc_at(buf@, pos as int, enc_strlen(n)) by {
                    if enc_at(buf@, pos as int, enc_strlen(n)) {
                        lemma_enc_strlen_at(buf@, pos as int, n);
                    }
                }
            }
            return Err(MsgpackError::Malformed);
        }
        proof {
            lemma_be32_of(buf[pos + 1], buf[pos + 2], buf[pos + 3], buf[pos + 4], n as nat);
            assert(buf@.subrange(pos as int, pos as int + 5) =~= enc_strlen(n as nat));
        }
        Ok((n, pos + 5))
    } else {
        proof {
            assert forall|n: nat| n < 0x100000000 implies !enc_at(buf@, pos as int, enc_strlen(n)) by {
                if enc_at(buf@, pos as int, enc_strlen(n)) {
                    lemma_enc_strlen_at(buf@, pos as int, n);
                }
            }
        }
        Err(MsgpackError::Malformed)
    }
}

/// Read an array length header in its shortest form.
#[verifier::rlimit(50)]
fn parse_arraylen(buf: &Vec<u8>, pos: usize) -> (r: Result<(u64, usize), MsgpackError>)
    requires
        pos <= buf@.len(),
    ensures
        r matches Ok(p) ==> pos < p.1 <= buf@.len() && p.0 < 0x100000000 && buf@.subrange(
            pos as int,
            p.1 as int,
        ) == enc_arraylen(p.0 as nat),
        r is Err ==> forall|n: nat| n < 0x100000000 ==> !enc_at(buf@, pos as int, enc_arraylen(
            n,
        )),
{
    if buf.len() - pos < 1 {
        proof {
            assert forall|n: nat| n < 0x100000000 implies !enc_at(buf@, pos as int, enc_arraylen(n)) by {
                if enc_at(buf@, pos as int, enc_arraylen(n)) {
                    lemma_enc_arraylen_at(buf@, pos as int, n);
                }
            }
        }
        return Err(MsgpackError::Malformed);
    }
    let b0 = buf[pos];
    if 0x90 <= b0 && b0 < 0xA0 {
        let n = b0 - 0x90;
        proof {
            assert(buf@.subrange(pos as int, pos as int + 1) =~= enc_arraylen(n as nat));
        }
        Ok((n as u64, pos + 1))
    } else if b0 == 0xDC {
        if buf.len() - pos < 3 {
            proof {
                assert forall|n: nat| n < 0x100000000 implies !enc_at(buf@, pos as int, enc_arraylen(n)) by {
                    if enc_at(buf@, pos as int, enc_arraylen(n)) {
                        lemma_enc_arraylen_at(buf@, pos as int, n);
                    }
                }
            }
            return Err(MsgpackError::Malformed);
        }
        let n = (buf[pos + 1] as u64) * 0x100 + (buf[pos + 2] as u64);
        if n < 16 {
            proof {
                assert forall|n: nat| n < 0x100000000 implies !enc_at(buf@, pos as int, enc_arraylen(n)) by {
                    if enc_at(buf@, pos as int, enc_arraylen(n)) {
                        lemma_enc_arraylen_at(buf@, pos as int, n);
                    }
                }
            }
            return Err(MsgpackError::Malformed);
        }
        proof {
            lemma_be16_of(buf[pos + 1], buf[pos + 2], n as nat);
            assert(buf@.subrange(pos as int, pos as int + 3) =~= enc_arraylen(n as nat));
        }
        Ok((n, pos + 3))
    } else if b0 == 0xDD {
        if buf.len() - pos < 5 {
            proof {
                assert forall|n: nat| n < 0x100000000 implies !enc_at(buf@, pos as int, enc_arraylen(n)) by {
                    if enc_at(buf@, pos as int, enc_arraylen(n)) {
                        lemma_enc_arraylen_at(buf@, pos as int, n);
                    }
                }
            }
            return Err(MsgpackError::Malformed);
        }
        let n = (buf[pos + 1] as u64) * 0x1000000 + (buf[pos + 2] as u64) * 0x10000 + (buf[pos
            + 3] as u64) * 0x100 + (buf[pos + 4] as u64);
        if n < 0x10000 {
            proof {
                assert forall|n: nat| n < 0x100000000 implies !enc_at(buf@, pos as int, enc_arraylen(n)) by {
                    if enc_at(buf@, pos as int, enc_arraylen(n)) {
                        lemma_enc_arraylen_at(buf@, pos as int, n);
                    }
                }
            }
            return Err(MsgpackError::Malformed);
        }
        proof {
            lemma_be32_of(buf[pos + 1], buf[pos + 2], buf[pos + 3], buf[pos + 4], n as nat);
            assert(buf@.subrange(pos as int, pos as int + 5) =~= enc_arraylen(n as nat));
        }
        Ok((n, pos + 5))
    } else {
        proof {
            assert forall|n: nat| n < 0x100000000 implies !enc_at(buf@, pos as int, enc_arraylen(n)) by {
                if enc_at(buf@, pos as int, enc_arraylen(n)) {
                    lemma_enc_arraylen_at(buf@, pos as int, n);
                }
            }
        }
        Err(MsgpackError::Malformed)
    }
}

/// Read a boolean.
fn parse_bool(buf: &Vec<u8>, pos: usize) -> (r: Result<(bool, usize), MsgpackError>)
    requires
        pos <= buf@.len(),
    ensures
        r matches Ok(p) ==> pos < p.1 <= buf@.len() && buf@.subrange(pos as int, p.1 as int)
            == enc_bool(p.0),
        r is Err ==> forall|v: bool| !enc_at(buf@, pos as int, enc_bool(v)),
{
    if buf.len() - pos < 1 {
        proof {
            assert forall|v: bool| !enc_at(buf@, pos as int, enc_bool(v)) by {
                if enc_at(buf@, pos as int, enc_bool(v)) {
                    lemma_enc_at_byte(buf@, pos as int, enc_bool(v), 0);
                }
            }
        }
        return Err(MsgpackError::Malformed);
    }
    let b0 = buf[pos];
    if b0 == 0xC3 {
        proof {
            assert(buf@.subrange(pos as int, pos as int + 1) =~= enc_bool(true));
        }
        Ok((true, pos + 1))
    } else if b0 == 0xC2 {
        proof {
            assert(buf@.subrange(pos as int, pos as int + 1) =~= enc_bool(false));
        }
        Ok((false, pos + 1))
    } else {
        proof {
            assert forall|v: bool| !enc_at(buf@, pos as int, enc_bool(v)) by {
                if enc_at(buf@, pos as int, enc_bool(v)) {
                    lemma_enc_at_byte(buf@, pos as int, enc_bool(v), 0);
                }
            }
        }
        Err(MsgpackError::Malformed)
    }
}

/// Read a string: its length header, then that many UTF-8 bytes.
fn parse_str(buf: &Vec<u8>, pos: usize) -> (r: Result<(String, usize), MsgpackError>)
    requires
        pos <= buf@.len(),
    ensures
        r matches Ok(p) ==> pos < p.1 <= buf@.len() && str_encodable(p.0@) && buf@.subrange(
            pos as int,
            p.1 as int,
        ) == enc_str(p.0@),
        r is Err ==> forall|s: Seq<char>| str_encodable(s) ==> !enc_at(
            buf@,
            pos as int,
            enc_str(s),
        ),
{
    let total = buf.len();
    let (n64, p1) = match parse_strlen(buf, pos) {
        Ok(p) => p,
        Err(e) => {
            proof {
                assert forall|s: Seq<char>| str_encodable(s) implies !enc_at(
                    buf@,
                    pos as int,
                    enc_str(s),
                ) by {
                    if enc_at(buf@, pos as int, enc_str(s)) {
                        lemma_enc_str_at(buf@, pos as int, s);
                    }
                }
            }
            return Err(e);
        },
    };
    proof {
        assert(enc_at(buf@, pos as int, enc_strlen(n64 as nat)));
    }
    if n64 > (usize::MAX as u64) {
        proof {
            assert forall|s: Seq<char>| str_encodable(s) implies !enc_at(
                buf@,
                pos as int,
                enc_str(s),
            ) by {
                if enc_at(buf@, pos as int, enc_str(s)) {
                    lemma_enc_str_at(buf@, pos as int, s);
                    lemma_strlen_at_unique(
                        buf@,
                        pos as int,
                        encode_utf8(s).len(),
                        n64 as nat,
                    );
                }
            }
        }
        return Err(MsgpackError::Malformed);
    }
    let n = n64 as usize;
    if total - p1 < n {
        proof {
            assert forall|s: Seq<char>| str_encodable(s) implies !enc_at(
                buf@,
                pos as int,
                enc_str(s),
            ) by {
                if enc_at(buf@, pos as int, enc_str(s)) {
                    lemma_enc_str_at(buf@, pos as int, s);
                    lemma_strlen_at_unique(
                        buf@,
                        pos as int,
                        encode_utf8(s).len(),
                        n64 as nat,
                    );
                }
            }
        }
        return Err(MsgpackError::Malformed);
    }
    let mut bytes: Vec<u8> = Vec::new();
    let mut k: usize = 0;
    while k < n
        invariant
            k <= n,
            p1 + n <= buf@.len(),
            buf@.len() <= usize::MAX,
            bytes@ =~= buf@.subrange(p1 as int, p1 as int + k as int),
        decreases n - k,
    {
        bytes.push(buf[p1 + k]);
        proof {
            assert(bytes@ =~= buf@.subrange(p1 as int, p1 as int + (k + 1)));
        }
        k += 1;
    }
    let ghost bytesv = bytes@;
    match string_from_utf8(bytes) {
        Some(s) => {
            proof {
                assert(encode_utf8(s@) == bytesv);
                assert(buf@.subrange(pos as int, p1 as int + n as int) =~= buf@.subrange(
                    pos as int,
                    p1 as int,
                ) + buf@.subrange(p1 as int, p1 as int + n as int));
                assert(buf@.subrange(pos as int, p1 as int + n as int) == enc_str(s@));
            }
            Ok((s, p1 + n))
        },
        None => {
            proof {
                assert forall|s: Seq<char>| str_encodable(s) implies !enc_at(
                    buf@,
                    pos as int,
                    enc_str(s),
                ) by {
                    if enc_at(buf@, pos as int, enc_str(s)) {
                        lemma_enc_str_at(buf@, pos as int, s);
                        lemma_strlen_at_unique(
                            buf@,
                            pos as int,
                            encode_utf8(s).len(),
                            n64 as nat,
                        );
                        assert(encode_utf8(s) == buf@.subrange(p1 as int, p1 as int + n as int));
                        vstd::utf8::encode_utf8_valid_utf8(s);
                    }
                }
            }
            Err(MsgpackError::Malformed)
        },
    }
}

/// Read a component: a three-element array of name, icon (or nil) and
/// content.
#[verifier::rlimit(60)]
fn parse_component(buf: &Vec<u8>, pos: usize) -> (r: Result<(Component, usize), MsgpackError>)
    requires
        pos <= buf@.len(),
    ensures
        r matches Ok(p) ==> pos < p.1 <= buf@.len() && component_encodable(p.0@) && buf@.subrange(
            pos as int,
            p.1 as int,
        ) == enc_component(p.0@),
        r is Err ==> forall|c: ComponentV| component_encodable(c) ==> !enc_at(
            buf@,
            pos as int,
            enc_component(c),
        ),
{
    if buf.len() - pos < 1 {
        proof {
            assert forall|c: ComponentV| component_encodable(c) implies !enc_at(
                buf@,
                pos as int,
                enc_component(c),
            ) by {
                if enc_at(buf@, pos as int, enc_component(c)) {
                    lemma_enc_component_at(buf@, pos as int, c);
                }
            }
        }
        return Err(MsgpackError::Malformed);
    }
    if buf[pos] != 0x93 {
        proof {
            assert forall|c: ComponentV| component_encodable(c) implies !enc_at(
                buf@,
                pos as int,
                enc_component(c),
            ) by {
                if enc_at(buf@, pos as int, enc_component(c)) {
                    lemma_enc_component_at(buf@, pos as int, c);
                }
            }
        }
        return Err(MsgpackError::Malformed);
    }
    let (name, p1) = match parse_str(buf, pos + 1) {
        Ok(p) => p,
        Err(e) => {
            proof {
                assert forall|c: ComponentV| component_encodable(c) implies !enc_at(
                    buf@,
                    pos as int,
                    enc_component(c),
                ) by {
                    if enc_at(buf@, pos as int, enc_component(c)) {
                        lemma_enc_component_at(buf@, pos as int, c);
                    }
                }
            }
            return Err(e);
        },
    };
    proof {
        assert(enc_at(buf@, pos as int + 1, enc_str(name@)));
    }
    let (icon, p2) = if buf.len() - p1 >= 1 && buf[p1] == 0xC0 {
        (None, p1 + 1)
    } else {
        match parse_str(buf, p1) {
            Ok((s, p)) => (Some(s), p),
            Err(e) => {
                proof {
                    assert forall|c: ComponentV| component_encodable(c) implies !enc_at(
                        buf@,
                        pos as int,
                        enc_component(c),
                    ) by {
                        if enc_at(buf@, pos as int, enc_component(c)) {
                            lemma_enc_component_at(buf@, pos as int, c);
                            lemma_str_at_unique(buf@, pos as int + 1, c.name, name@);
                            match c.icon {
                                Option::Some(i) => {},
                                Option::None => {
                                    lemma_enc_at_byte(buf@, p1 as int, seq![0xC0u8], 0);
                                },
                            }
                        }
                    }
                }
                return Err(e);
            },
        }
    };
    proof {
        assert(match icon {
            Option::Some(ref i) => enc_at(buf@, p1 as int, enc_str(i@)) && str_encodable(i@)
                && p2 == p1 + enc_str(i@).len(),
            Option::None => buf@[p1 as int] == 0xC0 && p1 < buf@.len() && p2 == p1 + 1,
        });
    }
    let (content, p3) = match parse_str(buf, p2) {
        Ok(p) => p,
        Err(e) => {
            proof {
                assert forall|c: ComponentV| component_encodable(c) implies !enc_at(
                    buf@,
                    pos as int,
                    enc_component(c),
                ) by {
                    if enc_at(buf@, pos as int, enc_component(c)) {
                        lemma_enc_component_at(buf@, pos as int, c);
                        lemma_str_at_unique(buf@, pos as int + 1, c.name, name@);
                        match (c.icon, &icon) {
                            (Option::Some(i), Option::Some(is)) => {
                                lemma_str_at_unique(buf@, p1 as int, i, is@);
                            },
                            (Option::Some(i), Option::None) => {
                                lemma_enc_str_at(buf@, p1 as int, i);
                            },
                            (Option::None, Option::Some(is)) => {
                                lemma_enc_at_byte(buf@, p1 as int, seq![0xC0u8], 0);
                                lemma_enc_str_at(buf@, p1 as int, is@);
                            },
                            (Option::None, Option::None) => {
                                lemma_enc_at_byte(buf@, p1 as int, seq![0xC0u8], 0);
                            },
                        }
                        assert(enc_at(buf@, p2 as int, enc_str(c.content)));
                    }
                }
            }
            return Err(e);
        },
    };
    let c = Component { name, icon, content };
    proof {
        assert(buf@.subrange(pos as int, pos as int + 1) =~= seq![0x93u8]);
        assert(match c@.icon {
            Option::Some(i) => buf@.subrange(p1 as int, p2 as int) == enc_str(i),
            Option::None => buf@.subrange(p1 as int, p2 as int) =~= seq![0xC0u8],
        });
        assert(buf@.subrange(pos as int, p3 as int) =~= buf@.subrange(pos as int, pos as int + 1)
            + buf@.subrange(pos as int + 1, p1 as int) + buf@.subrange(p1 as int, p2 as int)
            + buf@.subrange(p2 as int, p3 as int));
        assert(buf@.subrange(pos as int, p3 as int) == enc_component(c@));
    }
    Ok((c, p3))
}

/// Read `m` strings one after the other.
fn parse_lines(buf: &Vec<u8>, pos: usize, m: u64) -> (r: Result<(Vec<String>, usize), MsgpackError>)
    requires
        pos <= buf@.len(),
    ensures
        r matches Ok(p) ==> pos <= p.1 <= buf@.len() && p.0@.len() == m && lines_encodable(
            crate::render::lines_view(p.0@),
        ) && buf@.subrange(pos as int, p.1 as int) == enc_lines(
            crate::render::lines_view(p.0@),
        ),
        r is Err ==> forall|ls: Seq<Seq<char>>|
            ls.len() == m && lines_encodable(ls) ==> !enc_at(buf@, pos as int, enc_lines(ls)),
{
    let mut lines: Vec<String> = Vec::new();
    let mut p = pos;
    let mut i: u64 = 0;
    proof {
        assert forall|ls: Seq<Seq<char>>|
            ls.len() == m && lines_encodable(ls) && enc_at(
                buf@,
                pos as int,
                enc_lines(ls),
            ) implies enc_at(buf@, pos as int, enc_lines(ls.skip(0))) by {
            assert(ls.skip(0) =~= ls);
        }
    }
    while i < m
        invariant
            i <= m,
            pos <= p <= buf@.len(),
            lines@.len() == i,
            lines_encodable(crate::render::lines_view(lines@)),
            buf@.subrange(pos as int, p as int) =~= enc_lines(crate::render::lines_view(lines@)),
            forall|ls: Seq<Seq<char>>|
                ls.len() == m && lines_encodable(ls) && enc_at(
                    buf@,
                    pos as int,
                    enc_lines(ls),
                ) ==> enc_at(buf@, p as int, enc_lines(ls.skip(i as int))),
        decreases m - i,
    {
        let ghost prevl = crate::render::lines_view(lines@);
        let ghost prevp = p;
        let (s, p2) = match parse_str(buf, p) {
            Ok(x) => x,
            Err(e) => {
                proof {
                    assert forall|ls: Seq<Seq<char>>|
                        ls.len() == m && lines_encodable(ls) implies !enc_at(
                        buf@,
                        pos as int,
                        enc_lines(ls),
                    ) by {
                        if enc_at(buf@, pos as int, enc_lines(ls)) {
                            let tail = ls.skip(i as int);
                            assert(enc_at(buf@, prevp as int, enc_lines(tail)));
                            lemma_enc_lines_first(tail);
                            lemma_enc_at_split(
                                buf@,
                                prevp as int,
                                enc_str(tail.first()),
                                enc_lines(tail.drop_first()),
                            );
                            assert(tail.first() == ls[i as int]);
                            assert(str_encodable(ls[i as int]));
                        }
                    }
                }
                return Err(e);
            },
        };
        lines.push(s);
        p = p2;
        proof {
            let lv = crate::render::lines_view(lines@);
            assert forall|j: int| 0 <= j < lv.len() implies str_encodable(#[trigger] lv[j]) by {
                assert(lv[j] == lines@[j]@);
                if j < lv.len() - 1 {
                    assert(lines@[j]@ == prevl[j]);
                }
            }
            assert(lv.drop_last() =~= prevl);
            assert(lv.last() == lines@.last()@);
            assert(buf@.subrange(pos as int, p as int) =~= buf@.subrange(pos as int, prevp as int)
                + buf@.subrange(prevp as int, p as int));
            assert(buf@.subrange(pos as int, p as int) =~= enc_lines(lv));
            assert forall|ls: Seq<Seq<char>>|
                ls.len() == m && lines_encodable(ls) && enc_at(
                    buf@,
                    pos as int,
                    enc_lines(ls),
                ) implies enc_at(buf@, p2 as int, enc_lines(ls.skip(i + 1))) by {
                let tail = ls.skip(i as int);
                assert(enc_at(buf@, prevp as int, enc_lines(tail)));
                lemma_enc_lines_first(tail);
                lemma_enc_at_split(
                    buf@,
                    prevp as int,
                    enc_str(tail.first()),
                    enc_lines(tail.drop_first()),
                );
                assert(tail.first() == ls[i as int]);
                assert(str_encodable(ls[i as int]));
                assert(enc_at(buf@, prevp as int, enc_str(s@)));
                lemma_str_at_unique(buf@, prevp as int, tail.first(), s@);
                assert(tail.drop_first() =~= ls.skip(i + 1));
            }
        }
        i += 1;
    }
    Ok((lines, p))
}

/// Read the logo: a one-entry map from the variant index to its payload.
fn parse_logo(buf: &Vec<u8>, pos: usize) -> (r: Result<(Logo, usize), MsgpackError>)
    requires
        pos <= buf@.len(),
    ensures
        r matches Ok(p) ==> pos < p.1 <= buf@.len() && logo_encodable(p.0@) && buf@.subrange(
            pos as int,
            p.1 as int,
        ) == enc_logo(p.0@),
        r is Err ==> forall|l: LogoV| logo_encodable(l) ==> !enc_at(buf@, pos as int, enc_logo(l)),
{
    if buf.len() - pos < 2 {
        proof {
            assert forall|l: LogoV| logo_encodable(l) implies !enc_at(
                buf@,
                pos as int,
                enc_logo(l),
            ) by {
                if enc_at(buf@, pos as int, enc_logo(l)) {
                    lemma_enc_logo_at(buf@, pos as int, l);
                }
            }
        }
        return Err(MsgpackError::Malformed);
    }
    if buf[pos] != 0x81 {
        proof {
            assert forall|l: LogoV| logo_encodable(l) implies !enc_at(
                buf@,
                pos as int,
                enc_logo(l),
            ) by {
                if enc_at(buf@, pos as int, enc_logo(l)) {
                    lemma_enc_logo_at(buf@, pos as int, l);
                }
            }
        }
        return Err(MsgpackError::Malformed);
    }
    let tag = buf[pos + 1];
    if tag == 0 || tag == 2 {
        if buf.len() - pos < 3 {
            proof {
            assert forall|l: LogoV| logo_encodable(l) implies !enc_at(
                buf@,
                pos as int,
                enc_logo(l),
            ) by {
                if enc_at(buf@, pos as int, enc_logo(l)) {
                    lemma_enc_logo_at(buf@, pos as int, l);
                }
            }
            }
            return Err(MsgpackError::Malformed);
        }
        if buf[pos + 2] != 0xC0 {
            proof {
            assert forall|l: LogoV| logo_encodable(l) implies !enc_at(
                buf@,
                pos as int,
                enc_logo(l),
            ) by {
                if enc_at(buf@, pos as int, enc_logo(l)) {
                    lemma_enc_logo_at(buf@, pos as int, l);
                }
            }
            }
            return Err(MsgpackError::Malformed);
        }
        let l = if tag == 0 {
            Logo::Os
        } else {
            Logo::Disabled
        };
        proof {
            assert(buf@.subrange(pos as int, pos as int + 3) =~= enc_logo(l@));
        }
        Ok((l, pos + 3))
    } else if tag == 1 {
        let (m, p1) = match parse_arraylen(buf, pos + 2) {
            Ok(x) => x,
            Err(e) => {
                proof {
                    assert forall|l: LogoV| logo_encodable(l) implies !enc_at(
                        buf@,
                        pos as int,
                        enc_logo(l),
                    ) by {
                        if enc_at(buf@, pos as int, enc_logo(l)) {
                            lemma_enc_logo_at(buf@, pos as int, l);
                        }
                    }
                }
                return Err(e);
            },
        };
        proof {
            assert(enc_at(buf@, pos as int + 2, enc_arraylen(m as nat)));
        }
        let (lines, p2) = match parse_lines(buf, p1, m) {
            Ok(x) => x,
            Err(e) => {
                proof {
                    assert forall|l: LogoV| logo_encodable(l) implies !enc_at(
                        buf@,
                        pos as int,
                        enc_logo(l),
                    ) by {
                        if enc_at(buf@, pos as int, enc_logo(l)) {
                            lemma_enc_logo_at(buf@, pos as int, l);
                            match l {
                                LogoV::Custom(ls) => {
                                    lemma_arraylen_at_unique(
                                        buf@,
                                        pos as int + 2,
                                        ls.len(),
                                        m as nat,
                                    );
                                    assert(enc_at(buf@, p1 as int, enc_lines(ls)));
                                },
                                _ => {},
                            }
                        }
                    }
                }
                return Err(e);
            },
        };
        let l = Logo::Custom(lines);
        proof {
            assert(buf@.subrange(pos as int, pos as int + 2) =~= seq![0x81u8, 1u8]);
            assert(buf@.subrange(pos as int, p2 as int) =~= buf@.subrange(
                pos as int,
                pos as int + 2,
            ) + buf@.subrange(pos as int + 2, p1 as int) + buf@.subrange(p1 as int, p2 as int));
            assert(buf@.subrange(pos as int, p2 as int) == enc_logo(l@));
        }
        Ok((l, p2))
    } else {
        proof {
            assert forall|l: LogoV| logo_encodable(l) implies !enc_at(
                buf@,
                pos as int,
                enc_logo(l),
            ) by {
                if enc_at(buf@, pos as int, enc_logo(l)) {
                    lemma_enc_logo_at(buf@, pos as int, l);
                }
            }
        }
        Err(MsgpackError::Malformed)
    }
}

/// Read `m` components one after the other.
fn parse_components(buf: &Vec<u8>, pos: usize, m: u64) -> (r: Result<
    (Vec<Component>, usize),
    MsgpackError,
>)
    requires
        pos <= buf@.len(),
    ensures
        r matches Ok(p) ==> pos <= p.1 <= buf@.len() && p.0@.len() == m && components_encodable(
            p.0@.map_values(|c: Component| c@),
        ) && buf@.subrange(pos as int, p.1 as int) == enc_components(
            p.0@.map_values(|c: Component| c@),
        ),
        r is Err ==> forall|cs: Seq<ComponentV>|
            cs.len() == m && components_encodable(cs) ==> !enc_at(
                buf@,
                pos as int,
                enc_components(cs),
            ),
{
    let mut comps: Vec<Component> = Vec::new();
    let mut p = pos;
    let mut i: u64 = 0;
    proof {
        assert forall|cs: Seq<ComponentV>|
            cs.len() == m && components_encodable(cs) && enc_at(
                buf@,
                pos as int,
                enc_components(cs),
            ) implies enc_at(buf@, pos as int, enc_components(cs.skip(0))) by {
            assert(cs.skip(0) =~= cs);
        }
    }
    while i < m
        invariant
            i <= m,
            pos <= p <= buf@.len(),
            comps@.len() == i,
            components_encodable(comps@.map_values(|c: Component| c@)),
            buf@.subrange(pos as int, p as int) =~= enc_components(
                comps@.map_values(|c: Component| c@),
            ),
            forall|cs: Seq<ComponentV>|
                cs.len() == m && components_encodable(cs) && enc_at(
                    buf@,
                    pos as int,
                    enc_components(cs),
                ) ==> enc_at(buf@, p as int, enc_components(cs.skip(i as int))),
        decreases m - i,
    {
        let ghost prevl = comps@.map_values(|c: Component| c@);
        let ghost prevp = p;
        let (c, p2) = match parse_component(buf, p) {
            Ok(x) => x,
            Err(e) => {
                proof {
                    assert forall|cs: Seq<ComponentV>|
                        cs.len() == m && components_encodable(cs) implies !enc_at(
                        buf@,
                        pos as int,
                        enc_components(cs),
                    ) by {
                        if enc_at(buf@, pos as int, enc_components(cs)) {
                            let tail = cs.skip(i as int);
                            assert(enc_at(buf@, prevp as int, enc_components(tail)));
                            lemma_enc_components_first(tail);
                            lemma_enc_at_split(
                                buf@,
                                prevp as int,
                                enc_component(tail.first()),
                                enc_components(tail.drop_first()),
                            );
                            assert(tail.first() == cs[i as int]);
                            assert(component_encodable(cs[i as int]));
                        }
                    }
                }
                return Err(e);
            },
        };
        comps.push(c);
        p = p2;
        proof {
            assert forall|cs: Seq<ComponentV>|
                cs.len() == m && components_encodable(cs) && enc_at(
                    buf@,
                    pos as int,
                    enc_components(cs),
                ) implies enc_at(buf@, p2 as int, enc_components(cs.skip(i + 1))) by {
                let tail = cs.skip(i as int);
                assert(enc_at(buf@, prevp as int, enc_components(tail)));
                lemma_enc_components_first(tail);
                lemma_enc_at_split(
                    buf@,
                    prevp as int,
                    enc_component(tail.first()),
                    enc_components(tail.drop_first()),
                );
                assert(tail.first() == cs[i as int]);
                assert(component_encodable(cs[i as int]));
                assert(enc_at(buf@, prevp as int, enc_component(c@)));
                lemma_component_at_unique(buf@, prevp as int, tail.first(), c@);
                assert(tail.drop_first() =~= cs.skip(i + 1));
            }
            let cv = comps@.map_values(|c: Component| c@);
            assert forall|j: int| 0 <= j < cv.len() implies component_encodable(#[trigger] cv[j]) by {
                assert(cv[j] == comps@[j]@);
                if j < cv.len() - 1 {
                    assert(comps@[j]@ == prevl[j]);
                }
            }
            assert(cv.drop_last() =~= prevl);
            assert(cv.last() == comps@.last()@);
            assert(buf@.subrange(pos as int, p as int) =~= buf@.subrange(pos as int, prevp as int)
                + buf@.subrange(prevp as int, p as int));
            assert(buf@.subrange(pos as int, p as int) =~= enc_components(cv));
        }
        i += 1;
    }
    Ok((comps, p))
}

/// A configuration's encoding fills the buffer exactly: the array tag,
/// then its six parts back to back.
proof fn lemma_enc_config_at(b: Seq<u8>, c: ConfigV)
    requires
        msgpack_encodable(c),
        enc_config(c) == b,
    ensures
        b.len() >= 1 && b[0] == 0x95,
        enc_at(b, 1, enc_logo(c.logo)),
        enc_at(b, 1 + enc_logo(c.logo).len() as int, enc_arraylen(c.components.len())),
        enc_at(
            b,
            1 + enc_logo(c.logo).len() as int + enc_arraylen(c.components.len()).len(),
            enc_components(c.components),
        ),
        enc_at(
            b,
            1 + enc_logo(c.logo).len() as int + enc_arraylen(c.components.len()).len()
                + enc_components(c.components).len(),
            enc_bool(c.newline),
        ),
        enc_at(
            b,
            2 + enc_logo(c.logo).len() as int + enc_arraylen(c.components.len()).len()
                + enc_components(c.components).len(),
            enc_uint(c.spacing),
        ),
        enc_at(
            b,
            2 + enc_logo(c.logo).len() as int + enc_arraylen(c.components.len()).len()
                + enc_components(c.components).len() + enc_uint(c.spacing).len(),
            enc_bool(c.oneline),
        ),
        b.len() == 3 + enc_logo(c.logo).len() + enc_arraylen(c.components.len()).len()
            + enc_components(c.components).len() + enc_uint(c.spacing).len(),
{
    let s95 = seq![0x95u8];
    let el = enc_logo(c.logo);
    let ea = enc_arraylen(c.components.len());
    let ec = enc_components(c.components);
    let eb1 = enc_bool(c.newline);
    let eu = enc_uint(c.spacing);
    let eb2 = enc_bool(c.oneline);
    assert(b.subrange(0, b.len() as int) =~= b);
    assert(enc_at(b, 0, enc_config(c)));
    lemma_enc_at_split(b, 0, s95 + el + ea + ec + eb1 + eu, eb2);
    lemma_enc_at_split(b, 0, s95 + el + ea + ec + eb1, eu);
    lemma_enc_at_split(b, 0, s95 + el + ea + ec, eb1);
    lemma_enc_at_split(b, 0, s95 + el + ea, ec);
    lemma_enc_at_split(b, 0, s95 + el, ea);
    lemma_enc_at_split(b, 0, s95, el);
    lemma_enc_at_byte(b, 0, s95, 0);
}

/// No configuration encodes to a buffer that lacks the array tag.
proof fn lemma_cfg_err_head(b: Seq<u8>)
    requires
        b.len() < 1 || b[0] != 0x95,
    ensures
        forall|c: ConfigV| msgpack_encodable(c) ==> enc_config(c) != b,
{
    assert forall|c: ConfigV| msgpack_encodable(c) implies enc_config(c) != b by {
        if enc_config(c) == b {
            lemma_enc_config_at(b, c);
        }
    }
}

/// No configuration encodes to a buffer whose logo part is malformed.
proof fn lemma_cfg_err_logo(b: Seq<u8>)
    requires
        forall|l: LogoV| logo_encodable(l) ==> !enc_at(b, 1, enc_logo(l)),
    ensures
        forall|c: ConfigV| msgpack_encodable(c) ==> enc_config(c) != b,
{
    assert forall|c: ConfigV| msgpack_encodable(c) implies enc_config(c) != b by {
        if enc_config(c) == b {
            lemma_enc_config_at(b, c);
        }
    }
}

/// No configuration both starts with the parsed logo and has a malformed
/// component count after it.
proof fn lemma_cfg_err_arraylen(b: Seq<u8>, lv: LogoV, p1: int)
    requires
        logo_encodable(lv),
        enc_at(b, 1, enc_logo(lv)),
        p1 == 1 + enc_logo(lv).len(),
        forall|n: nat| n < 0x100000000 ==> !enc_at(b, p1, enc_arraylen(n)),
    ensures
        forall|c: ConfigV| msgpack_encodable(c) ==> enc_config(c) != b,
{
    assert forall|c: ConfigV| msgpack_encodable(c) implies enc_config(c) != b by {
        if enc_config(c) == b {
            lemma_enc_config_at(b, c);
            lemma_logo_at_unique(b, 1, c.logo, lv);
        }
    }
}

/// As before, and the components after the parsed count are malformed.
proof fn lemma_cfg_err_components(b: Seq<u8>, lv: LogoV, p1: int, m: nat, p2: int)
    requires
        logo_encodable(lv),
        enc_at(b, 1, enc_logo(lv)),
        p1 == 1 + enc_logo(lv).len(),
        m < 0x100000000,
        enc_at(b, p1, enc_arraylen(m)),
        p2 == p1 + enc_arraylen(m).len(),
        forall|cs: Seq<ComponentV>|
            cs.len() == m && components_encodable(cs) ==> !enc_at(b, p2, enc_components(cs)),
    ensures
        forall|c: ConfigV| msgpack_encodable(c) ==> enc_config(c) != b,
{
    assert forall|c: ConfigV| msgpack_encodable(c) implies enc_config(c) != b by {
        if enc_config(c) == b {
            lemma_enc_config_at(b, c);
            lemma_logo_at_unique(b, 1, c.logo, lv);
            lemma_arraylen_at_unique(b, p1, c.components.len(), m);
        }
    }
}

/// As before, and the newline flag after the parsed components is
/// malformed.
proof fn lemma_cfg_err_newline(
    b: Seq<u8>,
    lv: LogoV,
    p1: int,
    m: nat,
    p2: int,
    cv: Seq<ComponentV>,
    p3: int,
)
    requires
        logo_encodable(lv),
        enc_at(b, 1, enc_logo(lv)),
        p1 == 1 + enc_logo(lv).len(),
        m < 0x100000000,
        enc_at(b, p1, enc_arraylen(m)),
        p2 == p1 + enc_arraylen(m).len(),
        cv.len() == m,
        components_encodable(cv),
        enc_at(b, p2, enc_components(cv)),
        p3 == p2 + enc_components(cv).len(),
        forall|v: bool| !enc_at(b, p3, enc_bool(v)),
    ensures
        forall|c: ConfigV| msgpack_encodable(c) ==> enc_config(c) != b,
{
    assert forall|c: ConfigV| msgpack_encodable(c) implies enc_config(c) != b by {
        if enc_config(c) == b {
            lemma_enc_config_at(b, c);
            lemma_logo_at_unique(b, 1, c.logo, lv);
            lemma_arraylen_at_unique(b, p1, c.components.len(), m);
            lemma_components_at_unique(b, p2, c.components, cv);
        }
    }
}

/// As before, and the spacing after the parsed newline flag is malformed.
proof fn lemma_cfg_err_spacing_parse(
    b: Seq<u8>,
    lv: LogoV,
    p1: int,
    m: nat,
    p2: int,
    cv: Seq<ComponentV>,
    p3: int,
    p4: int,
)
    requires
        logo_encodable(lv),
        enc_at(b, 1, enc_logo(lv)),
        p1 == 1 + enc_logo(lv).len(),
        m < 0x100000000,
        enc_at(b, p1, enc_arraylen(m)),
        p2 == p1 + enc_arraylen(m).len(),
        cv.len() == m,
        components_encodable(cv),
        enc_at(b, p2, enc_components(cv)),
        p3 == p2 + enc_components(cv).len(),
        p4 == p3 + 1,
        forall|v: nat| v <= u64::MAX ==> !enc_at(b, p4, enc_uint(v)),
    ensures
        forall|c: ConfigV| msgpack_encodable(c) ==> enc_config(c) != b,
{
    assert forall|c: ConfigV| msgpack_encodable(c) implies enc_config(c) != b by {
        if enc_config(c) == b {
            lemma_enc_config_at(b, c);
            lemma_logo_at_unique(b, 1, c.logo, lv);
            lemma_arraylen_at_unique(b, p1, c.components.len(), m);
            lemma_components_at_unique(b, p2, c.components, cv);
            assert(enc_at(b, p4, enc_uint(c.spacing)));
        }
    }
}

/// As before, and the parsed spacing does not fit the machine's word.
proof fn lemma_cfg_err_spacing_wide(
    b: Seq<u8>,
    lv: LogoV,
    p1: int,
    m: nat,
    p2: int,
    cv: Seq<ComponentV>,
    p3: int,
    p4: int,
    sp: nat,
)
    requires
        logo_encodable(lv),
        enc_at(b, 1, enc_logo(lv)),
        p1 == 1 + enc_logo(lv).len(),
        m < 0x100000000,
        enc_at(b, p1, enc_arraylen(m)),
        p2 == p1 + enc_arraylen(m).len(),
        cv.len() == m,
        components_encodable(cv),
        enc_at(b, p2, enc_components(cv)),
        p3 == p2 + enc_components(cv).len(),
        p4 == p3 + 1,
        sp <= u64::MAX,
        enc_at(b, p4, enc_uint(sp)),
        sp > usize::MAX,
    ensures
        forall|c: ConfigV| msgpack_encodable(c) ==> enc_config(c) != b,
{
    assert forall|c: ConfigV| msgpack_encodable(c) implies enc_config(c) != b by {
        if enc_config(c) == b {
            lemma_enc_config_at(b, c);
            lemma_logo_at_unique(b, 1, c.logo, lv);
            lemma_arraylen_at_unique(b, p1, c.components.len(), m);
            lemma_components_at_unique(b, p2, c.components, cv);
            lemma_uint_at_unique(b, p4, c.spacing, sp);
        }
    }
}

/// As before, and the oneline flag after the parsed spacing is malformed.
proof fn lemma_cfg_err_oneline(
    b: Seq<u8>,
    lv: LogoV,
    p1: int,
    m: nat,
    p2: int,
    cv: Seq<ComponentV>,
    p3: int,
    p4: int,
    sp: nat,
    p5: int,
)
    requires
        logo_encodable(lv),
        enc_at(b, 1, enc_logo(lv)),
        p1 == 1 + enc_logo(lv).len(),
        m < 0x100000000,
        enc_at(b, p1, enc_arraylen(m)),
        p2 == p1 + enc_arraylen(m).len(),
        cv.len() == m,
        components_encodable(cv),
        enc_at(b, p2, enc_components(cv)),
        p3 == p2 + enc_components(cv).len(),
        p4 == p3 + 1,
        sp <= u64::MAX,
        enc_at(b, p4, enc_uint(sp)),
        p5 == p4 + enc_uint(sp).len(),
        forall|v: bool| !enc_at(b, p5, enc_bool(v)),
    ensures
        forall|c: ConfigV| msgpack_encodable(c) ==> enc_config(c) != b,
{
    assert forall|c: ConfigV| msgpack_encodable(c) implies enc_config(c) != b by {
        if enc_config(c) == b {
            lemma_enc_config_at(b, c);
            lemma_logo_at_unique(b, 1, c.logo, lv);
            lemma_arraylen_at_unique(b, p1, c.components.len(), m);
            lemma_components_at_unique(b, p2, c.components, cv);
            lemma_uint_at_unique(b, p4, c.spacing, sp);
            assert(enc_at(b, p5, enc_bool(c.oneline)));
        }
    }
}

/// As before, and bytes are left over after the parsed oneline flag.
proof fn lemma_cfg_err_tail(
    b: Seq<u8>,
    lv: LogoV,
    p1: int,
    m: nat,
    p2: int,
    cv: Seq<ComponentV>,
    p3: int,
    p4: int,
    sp: nat,
    p5: int,
    p6: int,
)
    requires
        logo_encodable(lv),
        enc_at(b, 1, enc_logo(lv)),
        p1 == 1 + enc_logo(lv).len(),
        m < 0x100000000,
        enc_at(b, p1, enc_arraylen(m)),
        p2 == p1 + enc_arraylen(m).len(),
        cv.len() == m,
        components_encodable(cv),
        enc_at(b, p2, enc_components(cv)),
        p3 == p2 + enc_components(cv).len(),
        p4 == p3 + 1,
        sp <= u64::MAX,
        enc_at(b, p4, enc_uint(sp)),
        p5 == p4 + enc_uint(sp).len(),
        p6 == p5 + 1,
        p6 != b.len(),
    ensures
        forall|c: ConfigV| msgpack_encodable(c) ==> enc_config(c) != b,
{
    assert forall|c: ConfigV| msgpack_encodable(c) implies enc_config(c) != b by {
        if enc_config(c) == b {
            lemma_enc_config_at(b, c);
            lemma_logo_at_unique(b, 1, c.logo, lv);
            lemma_arraylen_at_unique(b, p1, c.components.len(), m);
            lemma_components_at_unique(b, p2, c.components, cv);
            lemma_uint_at_unique(b, p4, c.spacing, sp);
        }
    }
}

impl Config {
    /// Read a configuration back from the binary record format.  What comes
    /// back re-encodes to exactly the given bytes, and every canonical
    /// encoding of an encodable configuration is accepted: only malformed
    /// or non-canonical bytes are refused.
    #[verifier::rlimit(100)]
    #[verifier::spinoff_prover]
    pub fn from_msgpack(buf: &Vec<u8>) -> (r: Result<Config, MsgpackError>)
        ensures
            r matches Ok(c) ==> msgpack_encodable(c@) && enc_config(c@) == buf@,
            r is Err ==> forall|c: ConfigV| msgpack_encodable(c) ==> enc_config(c) != buf@,
    {
        if buf.len() < 1 {
            proof {
                lemma_cfg_err_head(buf@);
            }
            return Err(MsgpackError::Malformed);
        }
        if buf[0] != 0x95 {
            proof {
                lemma_cfg_err_head(buf@);
            }
            return Err(MsgpackError::Malformed);
        }
        let (logo, p1) = match parse_logo(buf, 1) {
            Ok(x) => x,
            Err(e) => {
                proof {
                    lemma_cfg_err_logo(buf@);
                }
                return Err(e);
            },
        };
        proof {
            assert(enc_at(buf@, 1, enc_logo(logo@)));
        }
        let (m, p2) = match parse_arraylen(buf, p1) {
            Ok(x) => x,
            Err(e) => {
                proof {
                    lemma_cfg_err_arraylen(buf@, logo@, p1 as int);
                }
                return Err(e);
            },
        };
        proof {
            assert(enc_at(buf@, p1 as int, enc_arraylen(m as nat)));
        }
        let (components, p3) = match parse_components(buf, p2, m) {
            Ok(x) => x,
            Err(e) => {
                proof {
                    lemma_cfg_err_components(buf@, logo@, p1 as int, m as nat, p2 as int);
                }
                return Err(e);
            },
        };
        let ghost cv = components@.map_values(|x: Component| x@);
        proof {
            assert(enc_at(buf@, p2 as int, enc_components(cv)));
        }
        let (newline, p4) = match parse_bool(buf, p3) {
            Ok(x) => x,
            Err(e) => {
                proof {
                    lemma_cfg_err_newline(
                        buf@,
                        logo@,
                        p1 as int,
                        m as nat,
                        p2 as int,
                        cv,
                        p3 as int,
                    );
                }
                return Err(e);
            },
        };
        proof {
            assert(p4 - p3 == enc_bool(newline).len());
        }
        let (spacing64, p5) = match parse_uint(buf, p4) {
            Ok(x) => x,
            Err(e) => {
                proof {
                    lemma_cfg_err_spacing_parse(
                        buf@,
                        logo@,
                        p1 as int,
                        m as nat,
                        p2 as int,
                        cv,
                        p3 as int,
                        p4 as int,
                    );
                }
                return Err(e);
            },
        };
        proof {
            assert(enc_at(buf@, p4 as int, enc_uint(spacing64 as nat)));
        }
        if spacing64 > (usize::MAX as u64) {
            proof {
                lemma_cfg_err_spacing_wide(
                    buf@,
                    logo@,
                    p1 as int,
                    m as nat,
                    p2 as int,
                    cv,
                    p3 as int,
                    p4 as int,
                    spacing64 as nat,
                );
            }
            return Err(MsgpackError::Malformed);
        }
        let spacing = spacing64 as usize;
        let (oneline, p6) = match parse_bool(buf, p5) {
            Ok(x) => x,
            Err(e) => {
                proof {
                    lemma_cfg_err_oneline(
                        buf@,
                        logo@,
                        p1 as int,
                        m as nat,
                        p2 as int,
                        cv,
                        p3 as int,
                        p4 as int,
                        spacing64 as nat,
                        p5 as int,
                    );
                }
                return Err(e);
            },
        };
        proof {
            assert(p6 - p5 == enc_bool(oneline).len());
        }
        if p6 != buf.len() {
            proof {
                lemma_cfg_err_tail(
                    buf@,
                    logo@,
                    p1 as int,
                    m as nat,
                    p2 as int,
                    cv,
                    p3 as int,
                    p4 as int,
                    spacing64 as nat,
                    p5 as int,
                    p6 as int,
                );
            }
            return Err(MsgpackError::Malformed);
        }
        let c = Config { logo, components, newline, spacing, oneline };
        proof {
            assert(msgpack_encodable(c@));
            assert(buf@.subrange(0, 1) =~= seq![0x95u8]);
            assert(buf@.subrange(0, p6 as int) =~= buf@.subrange(0, 1) + buf@.subrange(
                1,
                p1 as int,
            ) + buf@.subrange(p1 as int, p2 as int) + buf@.subrange(p2 as int, p3 as int)
                + buf@.subrange(p3 as int, p4 as int) + buf@.subrange(p4 as int, p5 as int)
                + buf@.subrange(p5 as int, p6 as int));
            assert(buf@.subrange(0, p6 as int) =~= buf@);
            assert(enc_config(c@) == buf@);
        }
        Ok(c)
    }
}

} // verus!
