//! The zkey container format: a binary file split into tagged sections.
//! The container starts with a four-byte magic, a version and a section
//! count; each section is a tag, a byte length and its payload.  The
//! Groth16 header section records the field moduli, the variable counts
//! and the verifying-key points; the coefficient section records the
//! constraint matrices; the remaining sections hold vectors of curve
//! points.  This module parses the container structure and hands curve
//! payloads out as raw byte strings; turning them into curve points is
//! the numeric backend's business.

use vstd::prelude::*;

verus! {

/// A failure while parsing a zkey container.
#[derive(Clone, Copy, PartialEq, Eq, Structural, Debug)]
pub enum ZKeyParserError {
    /// The modulus recorded in the header is not the curve's.
    InvalidGroth16Header,
    /// The buffer ends before the structure it should hold.
    UnexpectedEnd,
}

/// The little-endian value of the four bytes at `off`.
pub open spec fn u32_le(b: Seq<u8>, off: int) -> int {
    b[off] + 0x100 * (b[off + 1] + 0x100 * (b[off + 2] + 0x100 * b[off + 3]))
}

/// The little-endian value of the eight bytes at `off`.
pub open spec fn u64_le(b: Seq<u8>, off: int) -> int {
    u32_le(b, off) + 0x100000000 * u32_le(b, off + 4)
}

/// Reads a little-endian 32-bit integer, if the buffer reaches.
pub fn read_u32(data: &Vec<u8>, off: usize) -> (r: Option<u32>)
    ensures
        r is Some <==> off + 4 <= data@.len(),
        r matches Some(v) ==> v as int == u32_le(data@, off as int),
{
    if off <= data.len() && data.len() - off >= 4 {
        let v = (data[off] as u32) + (data[off + 1] as u32) * 0x100 + (data[off + 2] as u32)
            * 0x10000 + (data[off + 3] as u32) * 0x1000000;
        Some(v)
    } else {
        None
    }
}

/// Reads a little-endian 64-bit integer, if the buffer reaches.
pub fn read_u64(data: &Vec<u8>, off: usize) -> (r: Option<u64>)
    ensures
        r is Some <==> off + 8 <= data@.len(),
        r matches Some(v) ==> v as int == u64_le(data@, off as int),
{
    if off <= data.len() && data.len() - off >= 8 {
        let lo = match read_u32(data, off) {
            Some(v) => v,
            None => {
                proof {
                    assert(false);
                }
                0
            },
        };
        let hi = match read_u32(data, off + 4) {
            Some(v) => v,
            None => {
                proof {
                    assert(false);
                }
                0
            },
        };
        Some((lo as u64) + (hi as u64) * 0x100000000)
    } else {
        None
    }
}

/// Copies `len` bytes starting at `off`, if the buffer reaches.
pub fn read_bytes(data: &Vec<u8>, off: usize, len: usize) -> (r: Option<Vec<u8>>)
    ensures
        r is Some <==> off + len <= data@.len(),
        r matches Some(v) ==> v@ == data@.subrange(off as int, off + len),
{
    if off <= data.len() && data.len() - off >= len {
        let dlen = data.len();
        let mut v: Vec<u8> = Vec::new();
        let mut k: usize = 0;
        while k < len
            invariant
                dlen == data@.len(),
                off + len <= data@.len(),
                0 <= k <= len,
                v@.len() == k as int,
                forall|j: int| 0 <= j < k ==> v@[j] == data@[off + j],
            decreases len - k,
        {
            v.push(data[off + k]);
            k += 1;
        }
        proof {
            assert(v@ =~= data@.subrange(off as int, off + len));
        }
        Some(v)
    } else {
        None
    }
}

/// One section of the container: where its payload starts and how many
/// bytes it holds.
#[derive(Clone, Copy, PartialEq, Eq, Structural, Debug)]
pub struct Section {
    pub position: usize,
    pub size: usize,
}

/// The section table parsed from `pos`, `count` entries deep: each entry
/// is a 32-bit tag and a 64-bit payload length, the payload following
/// immediately and the next entry after the payload.  `None` when the
/// buffer ends early.
pub open spec fn sections_from(data: Seq<u8>, pos: int, count: nat) -> Option<
    Seq<(u32, Section)>,
>
    decreases count,
{
    if count == 0 {
        Some(Seq::empty())
    } else if pos + 12 <= data.len() && pos + 12 + u64_le(data, pos + 4) <= data.len() {
        let id = u32_le(data, pos);
        let len = u64_le(data, pos + 4);
        match sections_from(data, pos + 12 + len, (count - 1) as nat) {
            Some(rest) => Some(
                seq![
                    (
                        id as u32,
                        Section { position: (pos + 12) as usize, size: len as usize },
                    ),
                ] + rest,
            ),
            None => None,
        }
    } else {
        None
    }
}

/// The parsed container frame: its magic, version and section table.
pub struct BinFile {
    pub ftype: Vec<u8>,
    pub version: u32,
    pub sections: Vec<(u32, Section)>,
}

impl BinFile {
    /// Parses the container frame: four magic bytes, a version, a
    /// section count and the section table.
    pub fn new(data: &Vec<u8>) -> (r: Result<BinFile, ZKeyParserError>)
        ensures
            r is Ok <==> (data@.len() >= 12 && sections_from(
                data@,
                12,
                u32_le(data@, 8) as nat,
            ) is Some),
            r matches Ok(bf) ==> {
                &&& bf.ftype@ == data@.subrange(0, 4)
                &&& bf.version as int == u32_le(data@, 4)
                &&& Some(bf.sections@) == sections_from(data@, 12, u32_le(data@, 8) as nat)
            },
            r matches Err(e) ==> e == ZKeyParserError::UnexpectedEnd,
    {
        let ftype = match read_bytes(data, 0, 4) {
            Some(v) => v,
            None => {
                return Err(ZKeyParserError::UnexpectedEnd);
            },
        };
        let version = match read_u32(data, 4) {
            Some(v) => v,
            None => {
                return Err(ZKeyParserError::UnexpectedEnd);
            },
        };
        let num_sections = match read_u32(data, 8) {
            Some(v) => v,
            None => {
                return Err(ZKeyParserError::UnexpectedEnd);
            },
        };
        let ghost total = u32_le(data@, 8) as nat;
        let mut sections: Vec<(u32, Section)> = Vec::new();
        let mut cur: usize = 12;
        let mut k: u32 = 0;
        proof {
            assert(sections@ + sections_from(data@, 12, total).unwrap() =~= sections_from(
                data@,
                12,
                total,
            ).unwrap() || sections_from(data@, 12, total) is None);
        }
        while k < num_sections
            invariant
                total == u32_le(data@, 8) as nat,
                num_sections as int == u32_le(data@, 8),
                0 <= k <= num_sections,
                cur <= data@.len(),
                data@.len() >= 12,
                match sections_from(data@, cur as int, (total - k as nat) as nat) {
                    Some(rest) => sections_from(data@, 12, total) == Some(sections@ + rest),
                    None => sections_from(data@, 12, total) is None,
                },
            decreases num_sections - k,
        {
            if !(cur <= data.len() && data.len() - cur >= 12) {
                return Err(ZKeyParserError::UnexpectedEnd);
            }
            let id = match read_u32(data, cur) {
                Some(v) => v,
                None => {
                    proof {
                        assert(false);
                    }
                    return Err(ZKeyParserError::UnexpectedEnd);
                },
            };
            let len64 = match read_u64(data, cur + 4) {
                Some(v) => v,
                None => {
                    proof {
                        assert(false);
                    }
                    return Err(ZKeyParserError::UnexpectedEnd);
                },
            };
            let payload_start = cur + 12;
            if !(len64 <= (data.len() as u64) && (payload_start as u64) <= (data.len() as u64)
                - len64) {
                proof {
                    assert(sections_from(data@, cur as int, (total - k as nat) as nat)
                        is None);
                }
                return Err(ZKeyParserError::UnexpectedEnd);
            }
            let sec = Section { position: payload_start, size: len64 as usize };
            let ghost old_sections = sections@;
            sections.push((id, sec));
            let next = payload_start + (len64 as usize);
            proof {
                let rem = (total - k as nat) as nat;
                let pos = cur as int;
                assert(pos + 12 <= data@.len());
                assert(pos + 12 + u64_le(data@, pos + 4) <= data@.len());
                assert(id == u32_le(data@, pos) as u32) by {
                    assert(0 <= u32_le(data@, pos) < 0x100000000);
                }
                assert(sec == (Section {
                    position: (pos + 12) as usize,
                    size: u64_le(data@, pos + 4) as usize,
                }));
                assert(sections@ =~= old_sections + seq![(id, sec)]);
                match sections_from(data@, next as int, (rem - 1) as nat) {
                    Some(rest2) => {
                        assert(sections_from(data@, pos, rem) == Some(
                            seq![(id, sec)] + rest2,
                        ));
                        assert(sections_from(data@, 12, total) == Some(
                            old_sections + (seq![(id, sec)] + rest2),
                        ));
                        assert((old_sections + seq![(id, sec)]) + rest2 =~= old_sections
                            + (seq![(id, sec)] + rest2));
                        assert(sections_from(data@, 12, total) == Some(sections@ + rest2));
                    },
                    None => {
                        assert(sections_from(data@, pos, rem) is None);
                        assert(sections_from(data@, 12, total) is None);
                    },
                }
            }
            cur = next;
            k = k + 1;
        }
        proof {
            assert(sections_from(data@, cur as int, 0) == Some(Seq::<(u32, Section)>::empty()));
            assert(sections@ + Seq::<(u32, Section)>::empty() =~= sections@);
        }
        Ok(BinFile { ftype, version, sections })
    }

    /// Looks up the first section with the given tag.
    pub fn get_section(&self, id: u32) -> (r: Option<Section>)
        ensures
            r == find_section(self.sections@, id),
    {
        let n = self.sections.len();
        let mut k: usize = 0;
        proof {
            assert(self.sections@.subrange(0, n as int) =~= self.sections@);
        }
        while k < n
            invariant
                n == self.sections@.len(),
                0 <= k <= n,
                find_section(self.sections@.subrange(k as int, n as int), id) == find_section(
                    self.sections@,
                    id,
                ),
            decreases n - k,
        {
            let ghost sub = self.sections@.subrange(k as int, n as int);
            if self.sections[k].0 == id {
                proof {
                    assert(sub[0] == self.sections@[k as int]);
                }
                return Some(self.sections[k].1);
            }
            proof {
                assert(sub[0].0 != id);
                assert(sub.drop_first() =~= self.sections@.subrange(k as int + 1, n as int));
            }
            k += 1;
        }
        proof {
            assert(self.sections@.subrange(n as int, n as int) =~= Seq::<(u32, Section)>::empty());
        }
        None
    }
}

/// The first section with the given tag.
pub open spec fn find_section(s: Seq<(u32, Section)>, id: u32) -> Option<Section>
    decreases s.len(),
{
    if s.len() == 0 {
        None
    } else if s[0].0 == id {
        Some(s[0].1)
    } else {
        find_section(s.drop_first(), id)
    }
}

/// The views of a vector of byte strings.
pub open spec fn vecs_view(s: Seq<Vec<u8>>) -> Seq<Seq<u8>> {
    s.map_values(|v: Vec<u8>| v@)
}

/// `num` consecutive chunks of `size` bytes from the section's payload.
pub open spec fn chunks_of(data: Seq<u8>, sec: Section, size: nat, num: nat) -> Seq<Seq<u8>> {
    Seq::new(num, |k: int| data.subrange(sec.position + k * size, sec.position + (k + 1) * size))
}

/// The six verifying-key points recorded in the Groth16 header, as raw
/// byte strings: a G1 point is `2 * n8q` bytes, a G2 point twice that.
pub struct ZVerifyingKey {
    pub alpha_g1: Vec<u8>,
    pub beta_g1: Vec<u8>,
    pub beta_g2: Vec<u8>,
    pub gamma_g2: Vec<u8>,
    pub delta_g1: Vec<u8>,
    pub delta_g2: Vec<u8>,
}

/// The verifying-key points sit at `pos` in the order alpha G1, beta G1,
/// beta G2, gamma G2, delta G1, delta G2.
pub open spec fn vk_matches(vk: ZVerifyingKey, data: Seq<u8>, pos: int, n8q: int) -> bool {
    let g1 = 2 * n8q;
    let g2 = 4 * n8q;
    &&& vk.alpha_g1@ == data.subrange(pos, pos + g1)
    &&& vk.beta_g1@ == data.subrange(pos + g1, pos + 2 * g1)
    &&& vk.beta_g2@ == data.subrange(pos + 2 * g1, pos + 2 * g1 + g2)
    &&& vk.gamma_g2@ == data.subrange(pos + 2 * g1 + g2, pos + 2 * g1 + 2 * g2)
    &&& vk.delta_g1@ == data.subrange(pos + 2 * g1 + 2 * g2, pos + 3 * g1 + 2 * g2)
    &&& vk.delta_g2@ == data.subrange(pos + 3 * g1 + 2 * g2, pos + 3 * g1 + 3 * g2)
}

impl ZVerifyingKey {
    /// Reads the six verifying-key points at `pos`.
    pub fn new(data: &Vec<u8>, pos: usize, n8q: u32) -> (r: Result<
        ZVerifyingKey,
        ZKeyParserError,
    >)
        ensures
            r matches Ok(vk) ==> vk_matches(vk, data@, pos as int, n8q as int),
            r matches Err(e) ==> e == ZKeyParserError::UnexpectedEnd,
            r is Ok <==> pos + 3 * (2 * n8q) + 3 * (4 * n8q) <= data@.len(),
    {
        let total: u128 = 18 * (n8q as u128);
        if !((pos as u128) + total <= (data.len() as u128)) {
            return Err(ZKeyParserError::UnexpectedEnd);
        }
        let g1 = 2 * (n8q as usize);
        let g2 = 4 * (n8q as usize);
        let alpha_g1 = match read_bytes(data, pos, g1) {
            Some(v) => v,
            None => {
                proof {
                    assert(false);
                }
                return Err(ZKeyParserError::UnexpectedEnd);
            },
        };
        let beta_g1 = match read_bytes(data, pos + g1, g1) {
            Some(v) => v,
            None => {
                proof {
                    assert(false);
                }
                return Err(ZKeyParserError::UnexpectedEnd);
            },
        };
        let beta_g2 = match read_bytes(data, pos + 2 * g1, g2) {
            Some(v) => v,
            None => {
                proof {
                    assert(false);
                }
                return Err(ZKeyParserError::UnexpectedEnd);
            },
        };
        let gamma_g2 = match read_bytes(data, pos + 2 * g1 + g2, g2) {
            Some(v) => v,
            None => {
                proof {
                    assert(false);
                }
                return Err(ZKeyParserError::UnexpectedEnd);
            },
        };
        let delta_g1 = match read_bytes(data, pos + 2 * g1 + 2 * g2, g1) {
            Some(v) => v,
            None => {
                proof {
                    assert(false);
                }
                return Err(ZKeyParserError::UnexpectedEnd);
            },
        };
        let delta_g2 = match read_bytes(data, pos + 3 * g1 + 2 * g2, g2) {
            Some(v) => v,
            None => {
                proof {
                    assert(false);
                }
                return Err(ZKeyParserError::UnexpectedEnd);
            },
        };
        Ok(ZVerifyingKey { alpha_g1, beta_g1, beta_g2, gamma_g2, delta_g1, delta_g2 })
    }
}

/// The base-two logarithm, rounded down.
pub open spec fn log2_floor(n: nat) -> nat
    decreases n,
{
    if n <= 1 {
        0
    } else {
        (1 + log2_floor(n / 2)) as nat
    }
}

/// The Groth16 header: field-element widths, the variable counts, the
/// evaluation-domain size and the verifying-key points.
pub struct HeaderGroth {
    pub n8q: u32,
    pub n8r: u32,
    pub n_vars: u32,
    pub n_public: u32,
    pub domain_size: u32,
    pub power: u32,
    pub verifying_key: ZVerifyingKey,
}

/// The offset of the scalar-field width inside the header at `pos`.
pub open spec fn hdr_o(data: Seq<u8>, pos: int) -> int {
    pos + 4 + u32_le(data, pos)
}

/// The offset of the variable counts inside the header at `pos`.
pub open spec fn hdr_c(data: Seq<u8>, pos: int) -> int {
    hdr_o(data, pos) + 4 + u32_le(data, hdr_o(data, pos))
}

/// The buffer reaches every part of the header at `pos`: both moduli,
/// the three counts, and the verifying-key points.
pub open spec fn groth_header_fits(data: Seq<u8>, pos: int) -> bool {
    let n8q = u32_le(data, pos);
    let o = hdr_o(data, pos);
    let c = hdr_c(data, pos);
    &&& pos + 4 <= data.len()
    &&& pos + 4 + n8q <= data.len()
    &&& o + 4 <= data.len()
    &&& o + 4 + u32_le(data, o) <= data.len()
    &&& c + 12 <= data.len()
    &&& c + 12 + 18 * n8q <= data.len()
}

/// The moduli recorded in the header at `pos` are the expected ones.
pub open spec fn groth_moduli_match(data: Seq<u8>, pos: int, eq: Seq<u8>, er: Seq<u8>) -> bool {
    let n8q = u32_le(data, pos);
    let o = hdr_o(data, pos);
    let n8r = u32_le(data, o);
    &&& eq.len() == n8q
    &&& data.subrange(pos + 4, pos + 4 + n8q) == eq
    &&& er.len() == n8r
    &&& data.subrange(o + 4, o + 4 + n8r) == er
}

/// The header fields as laid out at `pos`: the base-field width and
/// modulus, the scalar-field width and modulus, then the three counts
/// and the verifying key.
pub open spec fn header_matches(h: HeaderGroth, data: Seq<u8>, pos: int) -> bool {
    let o = pos + 4 + h.n8q;
    let c = o + 4 + h.n8r;
    &&& h.n8q as int == u32_le(data, pos)
    &&& h.n8r as int == u32_le(data, o)
    &&& h.n_vars as int == u32_le(data, c)
    &&& h.n_public as int == u32_le(data, c + 4)
    &&& h.domain_size as int == u32_le(data, c + 8)
    &&& h.power as nat == log2_floor(h.domain_size as nat)
    &&& vk_matches(h.verifying_key, data, c + 12, h.n8q as int)
}

impl HeaderGroth {
    /// Parses the header at `pos`, checking the recorded moduli against
    /// the expected base-field and scalar-field moduli.
    pub fn read(data: &Vec<u8>, pos: usize, expected_q: &Vec<u8>, expected_r: &Vec<u8>) -> (r:
        Result<HeaderGroth, ZKeyParserError>)
        ensures
            r is Ok <==> (groth_header_fits(data@, pos as int) && groth_moduli_match(
                data@,
                pos as int,
                expected_q@,
                expected_r@,
            )),
            r == Err::<HeaderGroth, ZKeyParserError>(ZKeyParserError::InvalidGroth16Header)
                ==> !groth_moduli_match(data@, pos as int, expected_q@, expected_r@),
            r matches Ok(h) ==> {
                &&& header_matches(h, data@, pos as int)
                &&& data@.subrange(pos + 4, pos + 4 + h.n8q) == expected_q@
                &&& expected_q@.len() == h.n8q
                &&& data@.subrange(
                    pos + 8 + h.n8q,
                    pos + 8 + h.n8q + h.n8r,
                ) == expected_r@
                &&& expected_r@.len() == h.n8r
            },
            r matches Err(e) ==> (e == ZKeyParserError::UnexpectedEnd || e
                == ZKeyParserError::InvalidGroth16Header),
    {
        let dlen = data.len();
        proof {
            assert(dlen == data@.len());
        }
        let n8q = match read_u32(data, pos) {
            Some(v) => v,
            None => {
                return Err(ZKeyParserError::UnexpectedEnd);
            },
        };
        if n8q as usize != expected_q.len() {
            return Err(ZKeyParserError::InvalidGroth16Header);
        }
        let q = match read_bytes(data, pos + 4, n8q as usize) {
            Some(v) => v,
            None => {
                return Err(ZKeyParserError::UnexpectedEnd);
            },
        };
        if !bytes_eq(&q, expected_q) {
            return Err(ZKeyParserError::InvalidGroth16Header);
        }
        let o = pos + 4 + (n8q as usize);
        let n8r = match read_u32(data, o) {
            Some(v) => v,
            None => {
                return Err(ZKeyParserError::UnexpectedEnd);
            },
        };
        if n8r as usize != expected_r.len() {
            return Err(ZKeyParserError::InvalidGroth16Header);
        }
        let rb = match read_bytes(data, o + 4, n8r as usize) {
            Some(v) => v,
            None => {
                return Err(ZKeyParserError::UnexpectedEnd);
            },
        };
        if !bytes_eq(&rb, expected_r) {
            return Err(ZKeyParserError::InvalidGroth16Header);
        }
        let c = o + 4 + (n8r as usize);
        let n_vars = match read_u32(data, c) {
            Some(v) => v,
            None => {
                return Err(ZKeyParserError::UnexpectedEnd);
            },
        };
        let n_public = match read_u32(data, c + 4) {
            Some(v) => v,
            None => {
                return Err(ZKeyParserError::UnexpectedEnd);
            },
        };
        let domain_size = match read_u32(data, c + 8) {
            Some(v) => v,
            None => {
                return Err(ZKeyParserError::UnexpectedEnd);
            },
        };
        let power = log2_of(domain_size);
        let verifying_key = match ZVerifyingKey::new(data, c + 12, n8q) {
            Ok(vk) => vk,
            Err(e) => {
                return Err(e);
            },
        };
        Ok(HeaderGroth { n8q, n8r, n_vars, n_public, domain_size, power, verifying_key })
    }

    /// Parses the header out of its section.
    pub fn new(data: &Vec<u8>, section: Section, expected_q: &Vec<u8>, expected_r: &Vec<u8>)
        -> (r: Result<HeaderGroth, ZKeyParserError>)
        ensures
            r is Ok <==> (groth_header_fits(data@, section.position as int)
                && groth_moduli_match(
                data@,
                section.position as int,
                expected_q@,
                expected_r@,
            )),
            r matches Ok(h) ==> {
                &&& header_matches(h, data@, section.position as int)
                &&& data@.subrange(
                    section.position + 4,
                    section.position + 4 + h.n8q,
                ) == expected_q@
                &&& expected_q@.len() == h.n8q
            },
            r matches Err(e) ==> (e == ZKeyParserError::UnexpectedEnd || e
                == ZKeyParserError::InvalidGroth16Header),
    {
        HeaderGroth::read(data, section.position, expected_q, expected_r)
    }
}

/// Byte-string equality.
fn bytes_eq(a: &Vec<u8>, b: &Vec<u8>) -> (r: bool)
    ensures
        r == (a@ == b@),
{
    if a.len() != b.len() {
        proof {
            assert(a@ !== b@);
        }
        return false;
    }
    let n = a.len();
    let mut i: usize = 0;
    while i < n
        invariant
            n == a@.len(),
            n == b@.len(),
            0 <= i <= n,
            forall|j: int| 0 <= j < i ==> a@[j] == b@[j],
        decreases n - i,
    {
        if a[i] != b[i] {
            proof {
                assert(a@ !== b@);
            }
            return false;
        }
        i += 1;
    }
    proof {
        assert(a@ =~= b@);
    }
    true
}

/// The base-two logarithm never exceeds its argument.
proof fn lemma_log2_floor_le(n: nat)
    ensures
        log2_floor(n) <= n,
    decreases n,
{
    if n > 1 {
        lemma_log2_floor_le(n / 2);
        vstd::arithmetic::div_mod::lemma_div_is_strictly_smaller(n as int, 2);
    }
}

/// The base-two logarithm of a 32-bit value, rounded down.
fn log2_of(n: u32) -> (r: u32)
    ensures
        r as nat == log2_floor(n as nat),
{
    let mut d = n;
    let mut p: u64 = 0;
    proof {
        lemma_log2_floor_le(n as nat);
    }
    while d > 1
        invariant
            p + log2_floor(d as nat) == log2_floor(n as nat),
            log2_floor(n as nat) <= n,
            d <= n,
        decreases d,
    {
        d = d / 2;
        p = p + 1;
    }
    p as u32
}

/// The tagged section exists and `num` chunks of `size` bytes fit in
/// its recorded position; `size` must also be addressable.
pub open spec fn section_fits(
    sections: Seq<(u32, Section)>,
    data: Seq<u8>,
    id: u32,
    size: int,
    num: int,
) -> bool {
    &&& 0 <= size <= usize::MAX
    &&& 0 <= num <= usize::MAX
    &&& match find_section(sections, id) {
        Some(sec) => sec.position + num * size <= data.len(),
        None => false,
    }
}

/// The tagged section exists and `v` holds its payload as `num` chunks
/// of `size` bytes.
pub open spec fn section_chunks_ok(
    sections: Seq<(u32, Section)>,
    data: Seq<u8>,
    id: u32,
    size: nat,
    num: nat,
    v: Seq<Vec<u8>>,
) -> bool {
    match find_section(sections, id) {
        Some(sec) => vecs_view(v) == chunks_of(data, sec, size, num),
        None => false,
    }
}

impl BinFile {
    /// Reads `num` points of `size` bytes each from the tagged section.
    fn point_section(&self, data: &Vec<u8>, num: usize, section_id: u32, size: usize) -> (r:
        Result<Vec<Vec<u8>>, ZKeyParserError>)
        ensures
            r is Ok <==> section_fits(self.sections@, data@, section_id, size as int, num as int),
            r matches Ok(v) ==> section_chunks_ok(
                self.sections@,
                data@,
                section_id,
                size as nat,
                num as nat,
                v@,
            ),
            r matches Err(e) ==> e == ZKeyParserError::UnexpectedEnd,
    {
        let sec = match self.get_section(section_id) {
            Some(sec) => sec,
            None => {
                return Err(ZKeyParserError::UnexpectedEnd);
            },
        };
        proof {
            assert((num as int) * (size as int) < 0x100000000000000000000000000000000)
                by (nonlinear_arith)
                requires
                    0 <= num < 0x10000000000000000,
                    0 <= size < 0x10000000000000000,
            ;
        }
        let total: u128 = (num as u128) * (size as u128);
        if !(total <= (data.len() as u128) && (sec.position as u128) <= (data.len() as u128)
            - total) {
            return Err(ZKeyParserError::UnexpectedEnd);
        }
        let dlen = data.len();
        let mut v: Vec<Vec<u8>> = Vec::new();
        let mut k: usize = 0;
        while k < num
            invariant
                dlen == data@.len(),
                0 <= k <= num,
                sec.position + (num as int) * (size as int) <= data@.len(),
                v@.len() == k as int,
                forall|j: int|
                    0 <= j < k ==> (#[trigger] v@[j])@ == data@.subrange(
                        sec.position + j * size,
                        sec.position + (j + 1) * size,
                    ),
            decreases num - k,
        {
            proof {
                assert((k + 1) * (size as int) == k * (size as int) + size) by (nonlinear_arith);
                assert((k + 1) * (size as int) <= (num as int) * (size as int))
                    by (nonlinear_arith)
                    requires
                        k + 1 <= num,
                        size >= 0,
                ;
                assert(0 <= k * (size as int) <= (num as int) * (size as int))
                    by (nonlinear_arith)
                    requires
                        0 <= k <= num,
                        size >= 0,
                ;
            }
            let off = sec.position + k * size;
            let chunk = match read_bytes(data, off, size) {
                Some(c) => c,
                None => {
                    proof {
                        assert(false);
                    }
                    return Err(ZKeyParserError::UnexpectedEnd);
                },
            };
            v.push(chunk);
            k += 1;
        }
        proof {
            assert(vecs_view(v@) =~~= chunks_of(data@, sec, size as nat, num as nat));
        }
        Ok(v)
    }

    /// The raw bytes of `num` G1 points from the tagged section.
    pub fn g1_section(&self, data: &Vec<u8>, num: usize, section_id: u32, n8q: u32) -> (r:
        Result<Vec<Vec<u8>>, ZKeyParserError>)
        ensures
            r is Ok <==> section_fits(
                self.sections@,
                data@,
                section_id,
                2 * n8q as int,
                num as int,
            ),
            r matches Ok(v) ==> section_chunks_ok(
                self.sections@,
                data@,
                section_id,
                (2 * n8q) as nat,
                num as nat,
                v@,
            ),
            r matches Err(e) ==> e == ZKeyParserError::UnexpectedEnd,
    {
        let size64: u64 = 2 * (n8q as u64);
        if size64 > (usize::MAX as u64) {
            return Err(ZKeyParserError::UnexpectedEnd);
        }
        self.point_section(data, num, section_id, size64 as usize)
    }

    /// The raw bytes of `num` G2 points from the tagged section.
    pub fn g2_section(&self, data: &Vec<u8>, num: usize, section_id: u32, n8q: u32) -> (r:
        Result<Vec<Vec<u8>>, ZKeyParserError>)
        ensures
            r is Ok <==> section_fits(
                self.sections@,
                data@,
                section_id,
                4 * n8q as int,
                num as int,
            ),
            r matches Ok(v) ==> section_chunks_ok(
                self.sections@,
                data@,
                section_id,
                (4 * n8q) as nat,
                num as nat,
                v@,
            ),
            r matches Err(e) ==> e == ZKeyParserError::UnexpectedEnd,
    {
        let size64: u64 = 4 * (n8q as u64);
        if size64 > (usize::MAX as u64) {
            return Err(ZKeyParserError::UnexpectedEnd);
        }
        self.point_section(data, num, section_id, size64 as usize)
    }

    /// The Groth16 header, from its section.
    pub fn groth_header(&self, data: &Vec<u8>, expected_q: &Vec<u8>, expected_r: &Vec<u8>) -> (r:
        Result<HeaderGroth, ZKeyParserError>)
        ensures
            r is Ok <==> (find_section(self.sections@, 2) matches Some(sec)
                && groth_header_fits(data@, sec.position as int) && groth_moduli_match(
                data@,
                sec.position as int,
                expected_q@,
                expected_r@,
            )),
            r matches Ok(h) ==> {
                &&& find_section(self.sections@, 2) is Some
                &&& header_matches(
                    h,
                    data@,
                    find_section(self.sections@, 2).unwrap().position as int,
                )
            },
            r matches Err(e) ==> (e == ZKeyParserError::UnexpectedEnd || e
                == ZKeyParserError::InvalidGroth16Header),
    {
        let sec = match self.get_section(2) {
            Some(sec) => sec,
            None => {
                return Err(ZKeyParserError::UnexpectedEnd);
            },
        };
        HeaderGroth::new(data, sec, expected_q, expected_r)
    }

    /// The commitment points of the public inputs: one G1 point per
    /// public input, plus one.
    pub fn ic(&self, data: &Vec<u8>, n_public: u32, n8q: u32) -> (r: Result<
        Vec<Vec<u8>>,
        ZKeyParserError,
    >)
        ensures
            r is Ok <==> (n_public + 1 <= usize::MAX && section_fits(
                self.sections@,
                data@,
                3,
                2 * n8q as int,
                n_public + 1,
            )),
            r matches Ok(v) ==> section_chunks_ok(
                self.sections@,
                data@,
                3,
                (2 * n8q) as nat,
                (n_public + 1) as nat,
                v@,
            ),
            r matches Err(e) ==> e == ZKeyParserError::UnexpectedEnd,
    {
        // the range is non-inclusive, so one more than the input count
        let num64: u64 = (n_public as u64) + 1;
        if num64 > (usize::MAX as u64) {
            return Err(ZKeyParserError::UnexpectedEnd);
        }
        self.g1_section(data, num64 as usize, 3, n8q)
    }

    pub fn a_query(&self, data: &Vec<u8>, n_vars: u32, n8q: u32) -> (r: Result<
        Vec<Vec<u8>>,
        ZKeyParserError,
    >)
        ensures
            r is Ok <==> section_fits(
                self.sections@,
                data@,
                5,
                2 * n8q as int,
                n_vars as int,
            ),
            r matches Ok(v) ==> section_chunks_ok(
                self.sections@,
                data@,
                5,
                (2 * n8q) as nat,
                n_vars as nat,
                v@,
            ),
            r matches Err(e) ==> e == ZKeyParserError::UnexpectedEnd,
    {
        self.g1_section(data, n_vars as usize, 5, n8q)
    }

    pub fn b_g1_query(&self, data: &Vec<u8>, n_vars: u32, n8q: u32) -> (r: Result<
        Vec<Vec<u8>>,
        ZKeyParserError,
    >)
        ensures
            r is Ok <==> section_fits(
                self.sections@,
                data@,
                6,
                2 * n8q as int,
                n_vars as int,
            ),
            r matches Ok(v) ==> section_chunks_ok(
                self.sections@,
                data@,
                6,
                (2 * n8q) as nat,
                n_vars as nat,
                v@,
            ),
            r matches Err(e) ==> e == ZKeyParserError::UnexpectedEnd,
    {
        self.g1_section(data, n_vars as usize, 6, n8q)
    }

    pub fn b_g2_query(&self, data: &Vec<u8>, n_vars: u32, n8q: u32) -> (r: Result<
        Vec<Vec<u8>>,
        ZKeyParserError,
    >)
        ensures
            r is Ok <==> section_fits(
                self.sections@,
                data@,
                7,
                4 * n8q as int,
                n_vars as int,
            ),
            r matches Ok(v) ==> section_chunks_ok(
                self.sections@,
                data@,
                7,
                (4 * n8q) as nat,
                n_vars as nat,
                v@,
            ),
            r matches Err(e) ==> e == ZKeyParserError::UnexpectedEnd,
    {
        self.g2_section(data, n_vars as usize, 7, n8q)
    }

    pub fn l_query(&self, data: &Vec<u8>, num: usize, n8q: u32) -> (r: Result<
        Vec<Vec<u8>>,
        ZKeyParserError,
    >)
        ensures
            r is Ok <==> section_fits(
                self.sections@,
                data@,
                8,
                2 * n8q as int,
                num as int,
            ),
            r matches Ok(v) ==> section_chunks_ok(
                self.sections@,
                data@,
                8,
                (2 * n8q) as nat,
                num as nat,
                v@,
            ),
            r matches Err(e) ==> e == ZKeyParserError::UnexpectedEnd,
    {
        self.g1_section(data, num, 8, n8q)
    }

    pub fn h_query(&self, data: &Vec<u8>, num: usize, n8q: u32) -> (r: Result<
        Vec<Vec<u8>>,
        ZKeyParserError,
    >)
        ensures
            r is Ok <==> section_fits(
                self.sections@,
                data@,
                9,
                2 * n8q as int,
                num as int,
            ),
            r matches Ok(v) ==> section_chunks_ok(
                self.sections@,
                data@,
                9,
                (2 * n8q) as nat,
                num as nat,
                v@,
            ),
            r matches Err(e) ==> e == ZKeyParserError::UnexpectedEnd,
    {
        self.g1_section(data, num, 9, n8q)
    }
}

/// Every condition under which the proving material can be assembled:
/// the header parses with the expected moduli, the witness variables
/// include every instance variable, the counts are addressable, and
/// each query section holds its points.
pub open spec fn proving_key_ok(
    sections: Seq<(u32, Section)>,
    data: Seq<u8>,
    eq: Seq<u8>,
    er: Seq<u8>,
) -> bool {
    match find_section(sections, 2) {
        Some(hsec) => {
            let pos = hsec.position as int;
            let n8q = u32_le(data, pos);
            let c = hdr_c(data, pos);
            let n_vars = u32_le(data, c);
            let n_public = u32_le(data, c + 4);
            let domain = u32_le(data, c + 8);
            &&& groth_header_fits(data, pos)
            &&& groth_moduli_match(data, pos, eq, er)
            &&& n_vars >= n_public + 1
            &&& n_public + 1 <= usize::MAX
            &&& section_fits(sections, data, 3, 2 * n8q, n_public + 1)
            &&& section_fits(sections, data, 5, 2 * n8q, n_vars)
            &&& section_fits(sections, data, 6, 2 * n8q, n_vars)
            &&& section_fits(sections, data, 7, 4 * n8q, n_vars)
            &&& section_fits(sections, data, 8, 2 * n8q, n_vars - n_public - 1)
            &&& section_fits(sections, data, 9, 2 * n8q, domain)
        },
        None => false,
    }
}

/// The proving material assembled from the container: the header with
/// its verifying-key points, and the query point vectors, all as raw
/// bytes for the numeric backend.
pub struct ProvingKeyData {
    pub header: HeaderGroth,
    pub ic: Vec<Vec<u8>>,
    pub a_query: Vec<Vec<u8>>,
    pub b_g1_query: Vec<Vec<u8>>,
    pub b_g2_query: Vec<Vec<u8>>,
    pub l_query: Vec<Vec<u8>>,
    pub h_query: Vec<Vec<u8>>,
}

impl BinFile {
    /// Assembles the proving material: the header and each query
    /// section, with the counts the header dictates.
    pub fn proving_key(&self, data: &Vec<u8>, expected_q: &Vec<u8>, expected_r: &Vec<u8>) -> (r:
        Result<ProvingKeyData, ZKeyParserError>)
        ensures
            r is Ok <==> proving_key_ok(self.sections@, data@, expected_q@, expected_r@),
            r matches Ok(pk) ==> {
                let n8q = pk.header.n8q;
                &&& find_section(self.sections@, 2) is Some
                &&& header_matches(
                    pk.header,
                    data@,
                    find_section(self.sections@, 2).unwrap().position as int,
                )
                &&& pk.header.n_vars >= pk.header.n_public + 1
                &&& section_chunks_ok(
                    self.sections@,
                    data@,
                    3,
                    (2 * n8q) as nat,
                    (pk.header.n_public + 1) as nat,
                    pk.ic@,
                )
                &&& section_chunks_ok(
                    self.sections@,
                    data@,
                    5,
                    (2 * n8q) as nat,
                    pk.header.n_vars as nat,
                    pk.a_query@,
                )
                &&& section_chunks_ok(
                    self.sections@,
                    data@,
                    6,
                    (2 * n8q) as nat,
                    pk.header.n_vars as nat,
                    pk.b_g1_query@,
                )
                &&& section_chunks_ok(
                    self.sections@,
                    data@,
                    7,
                    (4 * n8q) as nat,
                    pk.header.n_vars as nat,
                    pk.b_g2_query@,
                )
                &&& section_chunks_ok(
                    self.sections@,
                    data@,
                    8,
                    (2 * n8q) as nat,
                    (pk.header.n_vars - pk.header.n_public - 1) as nat,
                    pk.l_query@,
                )
                &&& section_chunks_ok(
                    self.sections@,
                    data@,
                    9,
                    (2 * n8q) as nat,
                    pk.header.domain_size as nat,
                    pk.h_query@,
                )
            },
            r matches Err(e) ==> (e == ZKeyParserError::UnexpectedEnd || e
                == ZKeyParserError::InvalidGroth16Header),
    {
        let header = match self.groth_header(data, expected_q, expected_r) {
            Ok(h) => h,
            Err(e) => {
                return Err(e);
            },
        };
        if header.n_vars < 1 || header.n_public > header.n_vars - 1 {
            return Err(ZKeyParserError::InvalidGroth16Header);
        }
        let ic = match self.ic(data, header.n_public, header.n8q) {
            Ok(v) => v,
            Err(e) => {
                return Err(e);
            },
        };
        let a_query = match self.a_query(data, header.n_vars, header.n8q) {
            Ok(v) => v,
            Err(e) => {
                return Err(e);
            },
        };
        let b_g1_query = match self.b_g1_query(data, header.n_vars, header.n8q) {
            Ok(v) => v,
            Err(e) => {
                return Err(e);
            },
        };
        let b_g2_query = match self.b_g2_query(data, header.n_vars, header.n8q) {
            Ok(v) => v,
            Err(e) => {
                return Err(e);
            },
        };
        let l_query = match self.l_query(
            data,
            (header.n_vars as usize) - (header.n_public as usize) - 1,
            header.n8q,
        ) {
            Ok(v) => v,
            Err(e) => {
                return Err(e);
            },
        };
        let h_query = match self.h_query(data, header.domain_size as usize, header.n8q) {
            Ok(v) => v,
            Err(e) => {
                return Err(e);
            },
        };
        Ok(ProvingKeyData { header, ic, a_query, b_g1_query, b_g2_query, l_query, h_query })
    }
}

/// The coefficient stream parsed from `pos`, `count` entries deep: each
/// entry names a matrix, a constraint row and a signal, followed by an
/// `n8r`-byte coefficient.  `None` when the buffer ends early.
pub open spec fn coeff_entries(data: Seq<u8>, pos: int, count: nat, n8r: nat) -> Option<
    Seq<(int, int, int, Seq<u8>)>,
>
    decreases count,
{
    if count == 0 {
        Some(Seq::empty())
    } else if pos + 12 + n8r <= data.len() {
        let entry = (
            u32_le(data, pos),
            u32_le(data, pos + 4),
            u32_le(data, pos + 8),
            data.subrange(pos + 12, pos + 12 + n8r),
        );
        match coeff_entries(data, pos + 12 + n8r, (count - 1) as nat, n8r) {
            Some(rest) => Some(seq![entry] + rest),
            None => None,
        }
    } else {
        None
    }
}

/// The largest constraint index the stream names; zero for an empty
/// stream.
pub open spec fn max_constraint_of(es: Seq<(int, int, int, Seq<u8>)>) -> int
    decreases es.len(),
{
    if es.len() == 0 {
        0
    } else {
        let m = max_constraint_of(es.drop_last());
        if es.last().1 > m {
            es.last().1
        } else {
            m
        }
    }
}

/// Row `r` of matrix `m`: the stream's entries for that row, in stream
/// order, each reduced to its coefficient and signal.
pub open spec fn matrix_row(es: Seq<(int, int, int, Seq<u8>)>, m: int, r: int) -> Seq<
    (Seq<u8>, int),
>
    decreases es.len(),
{
    if es.len() == 0 {
        Seq::empty()
    } else {
        let rest = matrix_row(es.drop_last(), m, r);
        let x = es.last();
        if x.0 == m && x.1 == r {
            rest.push((x.3, x.2))
        } else {
            rest
        }
    }
}

/// Appending an entry extends exactly the row it names.
proof fn lemma_matrix_row_push(
    es: Seq<(int, int, int, Seq<u8>)>,
    x: (int, int, int, Seq<u8>),
    m: int,
    r: int,
)
    ensures
        matrix_row(es.push(x), m, r) == if x.0 == m && x.1 == r {
            matrix_row(es, m, r).push((x.3, x.2))
        } else {
            matrix_row(es, m, r)
        },
{
    assert(es.push(x).drop_last() =~= es);
    assert(es.push(x).last() == x);
    if x.0 == m && x.1 == r {
        assert(matrix_row(es.push(x), m, r) =~= matrix_row(es, m, r).push((x.3, x.2)));
    } else {
        assert(matrix_row(es.push(x), m, r) =~= matrix_row(es, m, r));
    }
}

/// The mathematical view of one row.
pub open spec fn row_view(row: Vec<(Vec<u8>, usize)>) -> Seq<(Seq<u8>, int)> {
    row@.map_values(|p: (Vec<u8>, usize)| (p.0@, p.1 as int))
}

/// The first `bound` rows are exactly the stream's rows of matrix `m`.
pub open spec fn rows_match(
    rows: Seq<Vec<(Vec<u8>, usize)>>,
    es: Seq<(int, int, int, Seq<u8>)>,
    m: int,
    bound: int,
) -> bool {
    forall|r: int|
        #![trigger rows[r]]
        0 <= r < bound ==> row_view(rows[r]) == matrix_row(es, m, r)
}

/// The executable entry list mirrors the parsed stream, values read at
/// the recorded offsets.
spec fn entries_mirror(
    entries: Seq<(u32, u32, usize, u32)>,
    es: Seq<(int, int, int, Seq<u8>)>,
    data: Seq<u8>,
    n8r: nat,
) -> bool {
    &&& entries.len() == es.len()
    &&& forall|i: int|
        #![trigger entries[i]]
        0 <= i < entries.len() ==> {
            let en = entries[i];
            let e = es[i];
            &&& en.0 as int == e.0
            &&& en.1 as int == e.1
            &&& en.3 as int == e.2
            &&& en.2 + n8r <= data.len()
            &&& e.3 == data.subrange(en.2 as int, en.2 + n8r)
            &&& en.0 < 2
        }
}

/// The total number of entries across the rows.
pub open spec fn rows_nnz(rows: Seq<Vec<(Vec<u8>, usize)>>) -> int
    decreases rows.len(),
{
    if rows.len() == 0 {
        0
    } else {
        rows_nnz(rows.drop_last()) + rows.last()@.len()
    }
}

/// Every entry's coefficient is `n8r` bytes wide.
pub open spec fn rows_values_sized(rows: Seq<Vec<(Vec<u8>, usize)>>, n8r: nat) -> bool {
    forall|i: int, j: int|
        #![trigger rows[i]@[j]]
        0 <= i < rows.len() && 0 <= j < rows[i]@.len() ==> (rows[i]@[j]).0@.len() == n8r
}

/// Every condition under which the constraint matrices can be
/// recovered: the header parses with the expected moduli, the witness
/// variables cover the public ones, the coefficient stream parses with
/// every entry naming one of the two matrices, and the largest
/// constraint index reaches past the public inputs.
pub open spec fn matrices_ok(
    sections: Seq<(u32, Section)>,
    data: Seq<u8>,
    eq: Seq<u8>,
    er: Seq<u8>,
) -> bool {
    match (find_section(sections, 2), find_section(sections, 4)) {
        (Some(hsec), Some(csec)) => {
            let pos = hsec.position as int;
            let c = hdr_c(data, pos);
            let n_vars = u32_le(data, c);
            let n_public = u32_le(data, c + 4);
            let count = u32_le(data, csec.position as int);
            let stream = coeff_entries(
                data,
                csec.position + 4,
                count as nat,
                u32_le(data, hdr_o(data, pos)) as nat,
            );
            &&& groth_header_fits(data, pos)
            &&& groth_moduli_match(data, pos, eq, er)
            &&& n_vars >= n_public
            &&& n_public + 1 <= usize::MAX
            &&& csec.position + 4 <= data.len()
            &&& stream is Some
            &&& (forall|e: int|
                0 <= e < stream.unwrap().len() ==> (#[trigger] stream.unwrap()[e]).0 < 2)
            &&& max_constraint_of(stream.unwrap()) >= n_public
        },
        _ => false,
    }
}

/// The constraint matrices recovered from the coefficient section:
/// rows of `(coefficient bytes, signal index)` pairs, with the counts
/// the proof system needs.  The matrix of output wires is always empty
/// here; the backend adds it later.
pub struct ConstraintMatricesData {
    pub num_instance_variables: usize,
    pub num_witness_variables: usize,
    pub num_constraints: usize,
    pub a_num_non_zero: u64,
    pub b_num_non_zero: u64,
    pub c_num_non_zero: u64,
    pub a: Vec<Vec<(Vec<u8>, usize)>>,
    pub b: Vec<Vec<(Vec<u8>, usize)>>,
    pub c: Vec<Vec<(Vec<u8>, usize)>>,
}

impl BinFile {
    /// Recovers the constraint matrices from the coefficient section:
    /// the public-input rows are dropped, the instance and witness
    /// variable counts come from the header, and the non-zero counts
    /// match the rows returned.
    pub fn matrices(&self, data: &Vec<u8>, expected_q: &Vec<u8>, expected_r: &Vec<u8>) -> (r:
        Result<ConstraintMatricesData, ZKeyParserError>)
        ensures
            r is Ok <==> matrices_ok(self.sections@, data@, expected_q@, expected_r@),
            r matches Ok(md) ==> {
                &&& find_section(self.sections@, 2) is Some
                &&& find_section(self.sections@, 4) is Some
                &&& exists|h: HeaderGroth|
                    {
                        let csec = find_section(self.sections@, 4).unwrap();
                        let stream = coeff_entries(
                            data@,
                            csec.position + 4,
                            u32_le(data@, csec.position as int) as nat,
                            h.n8r as nat,
                        );
                        &&& #[trigger] header_matches(
                            h,
                            data@,
                            find_section(self.sections@, 2).unwrap().position as int,
                        )
                        &&& md.num_instance_variables == h.n_public + 1
                        &&& md.num_witness_variables == h.n_vars - h.n_public
                        &&& rows_values_sized(md.a@, h.n8r as nat)
                        &&& rows_values_sized(md.b@, h.n8r as nat)
                        &&& stream is Some
                        &&& md.num_constraints == max_constraint_of(stream.unwrap())
                            - h.n_public
                        &&& rows_match(md.a@, stream.unwrap(), 0, md.num_constraints as int)
                        &&& rows_match(md.b@, stream.unwrap(), 1, md.num_constraints as int)
                    }
                &&& md.a@.len() == md.num_constraints
                &&& md.b@.len() == md.num_constraints
                &&& md.c@.len() == 0
                &&& md.c_num_non_zero == 0
                &&& md.a_num_non_zero as int == rows_nnz(md.a@)
                &&& md.b_num_non_zero as int == rows_nnz(md.b@)
            },
            r matches Err(e) ==> (e == ZKeyParserError::UnexpectedEnd || e
                == ZKeyParserError::InvalidGroth16Header),
    {
        let header = match self.groth_header(data, expected_q, expected_r) {
            Ok(h) => h,
            Err(e) => {
                return Err(e);
            },
        };
        if header.n_vars < header.n_public {
            return Err(ZKeyParserError::InvalidGroth16Header);
        }
        if (header.n_public as u64) >= (usize::MAX as u64) {
            return Err(ZKeyParserError::UnexpectedEnd);
        }
        let sec = match self.get_section(4) {
            Some(sec) => sec,
            None => {
                return Err(ZKeyParserError::UnexpectedEnd);
            },
        };
        let num_coeffs = match read_u32(data, sec.position) {
            Some(v) => v,
            None => {
                return Err(ZKeyParserError::UnexpectedEnd);
            },
        };
        let n8r = header.n8r as usize;
        let dlen = data.len();
        let ghost pos2 = find_section(self.sections@, 2).unwrap().position as int;
        proof {
            assert(header_matches(header, data@, pos2));
            assert(hdr_o(data@, pos2) == pos2 + 4 + header.n8q);
            assert(hdr_c(data@, pos2) == hdr_o(data@, pos2) + 4 + header.n8r);
        }
        // first pass: the flat coefficient stream, values by offset; the
        // parsed entries are tracked in ghost form alongside
        let mut entries: Vec<(u32, u32, usize, u32)> = Vec::new();
        let ghost mut es: Seq<(int, int, int, Seq<u8>)> = Seq::empty();
        let ghost start = sec.position + 4;
        let ghost total = u32_le(data@, sec.position as int) as nat;
        let mut max_constraint: u32 = 0;
        let mut pos = sec.position + 4;
        let mut i: u32 = 0;
        proof {
            assert(coeff_entries(data@, start, total, n8r as nat) matches Some(rest)
                ==> es + rest =~= rest);
        }
        while i < num_coeffs
            invariant
                dlen == data@.len(),
                n8r == header.n8r as usize,
                num_coeffs as int == u32_le(data@, sec.position as int),
                total == u32_le(data@, sec.position as int) as nat,
                start == sec.position + 4,
                pos2 == find_section(self.sections@, 2).unwrap().position as int,
                find_section(self.sections@, 2) is Some,
                find_section(self.sections@, 4) == Some(sec),
                header_matches(header, data@, pos2),
                n8r as int == u32_le(data@, hdr_o(data@, pos2)),
                groth_header_fits(data@, pos2),
                groth_moduli_match(data@, pos2, expected_q@, expected_r@),
                header.n_vars >= header.n_public,
                header.n_public as int + 1 <= usize::MAX,
                sec.position + 4 <= dlen,
                0 <= i <= num_coeffs,
                pos <= dlen,
                entries@.len() == i as int,
                es.len() == i as int,
                entries_mirror(entries@, es, data@, n8r as nat),
                max_constraint as int == max_constraint_of(es),
                match coeff_entries(data@, pos as int, (total - i as nat) as nat, n8r as nat) {
                    Some(rest) => coeff_entries(data@, start, total, n8r as nat) == Some(
                        es + rest,
                    ),
                    None => coeff_entries(data@, start, total, n8r as nat) is None,
                },
            decreases num_coeffs - i,
        {
            let ghost rem0 = (total - i as nat) as nat;
            let m = match read_u32(data, pos) {
                Some(v) => v,
                None => {
                    proof {
                        assert(coeff_entries(data@, pos as int, rem0, n8r as nat) is None);
                        assert(coeff_entries(data@, start, total, n8r as nat) is None);
                        assert(!matrices_ok(
                            self.sections@,
                            data@,
                            expected_q@,
                            expected_r@,
                        ));
                    }
                    return Err(ZKeyParserError::UnexpectedEnd);
                },
            };
            let cst = match read_u32(data, pos + 4) {
                Some(v) => v,
                None => {
                    proof {
                        assert(coeff_entries(data@, pos as int, rem0, n8r as nat) is None);
                        assert(coeff_entries(data@, start, total, n8r as nat) is None);
                        assert(!matrices_ok(
                            self.sections@,
                            data@,
                            expected_q@,
                            expected_r@,
                        ));
                    }
                    return Err(ZKeyParserError::UnexpectedEnd);
                },
            };
            let sig = match read_u32(data, pos + 8) {
                Some(v) => v,
                None => {
                    proof {
                        assert(coeff_entries(data@, pos as int, rem0, n8r as nat) is None);
                        assert(coeff_entries(data@, start, total, n8r as nat) is None);
                        assert(!matrices_ok(
                            self.sections@,
                            data@,
                            expected_q@,
                            expected_r@,
                        ));
                    }
                    return Err(ZKeyParserError::UnexpectedEnd);
                },
            };
            if m >= 2 {
                proof {
                    match coeff_entries(data@, pos as int, rem0, n8r as nat) {
                        Some(rest) => {
                            // the offending entry sits at index i of the stream
                            assert(rest.len() >= 1 && rest[0].0 == m as int);
                            let full = es + rest;
                            assert(coeff_entries(data@, start, total, n8r as nat) == Some(
                                full,
                            ));
                            assert(full[i as int].0 >= 2);
                            assert(!(forall|e: int|
                                0 <= e < full.len() ==> (#[trigger] full[e]).0 < 2));
                        },
                        None => {
                            assert(coeff_entries(data@, start, total, n8r as nat) is None);
                        },
                    }
                    assert(!matrices_ok(self.sections@, data@, expected_q@, expected_r@));
                }
                return Err(ZKeyParserError::InvalidGroth16Header);
            }
            let val_off = pos + 12;
            if !(val_off <= dlen && dlen - val_off >= n8r) {
                proof {
                    assert(coeff_entries(data@, pos as int, rem0, n8r as nat) is None);
                    assert(coeff_entries(data@, start, total, n8r as nat) is None);
                    assert(!matrices_ok(self.sections@, data@, expected_q@, expected_r@));
                }
                return Err(ZKeyParserError::UnexpectedEnd);
            }
            if cst > max_constraint {
                max_constraint = cst;
            }
            entries.push((m, cst, val_off, sig));
            proof {
                let ent = (
                    m as int,
                    cst as int,
                    sig as int,
                    data@.subrange(val_off as int, val_off + n8r),
                );
                let old_es = es;
                es = es.push(ent);
                assert(es.drop_last() =~= old_es);
                assert(max_constraint as int == max_constraint_of(es));
                assert forall|e: int|
                    #![trigger entries@[e]]
                    0 <= e < entries@.len() implies {
                    let en = entries@[e];
                    let sp = es[e];
                    &&& en.0 as int == sp.0
                    &&& en.1 as int == sp.1
                    &&& en.3 as int == sp.2
                    &&& en.2 + n8r <= data@.len()
                    &&& sp.3 == data@.subrange(en.2 as int, en.2 + n8r)
                    &&& en.0 < 2
                } by {
                    let en = entries@[e];
                }
                assert(entries_mirror(entries@, es, data@, n8r as nat));
                let rem = (total - i as nat) as nat;
                match coeff_entries(data@, pos + 12 + n8r, (rem - 1) as nat, n8r as nat) {
                    Some(rest2) => {
                        assert(coeff_entries(data@, pos as int, rem, n8r as nat) == Some(
                            seq![ent] + rest2,
                        ));
                        assert((old_es + (seq![ent] + rest2)) =~= (es + rest2));
                    },
                    None => {
                        assert(coeff_entries(data@, pos as int, rem, n8r as nat) is None);
                    },
                }
            }
            pos = val_off + n8r;
            i += 1;
        }
        proof {
            assert(coeff_entries(data@, pos as int, 0, n8r as nat) == Some(
                Seq::<(int, int, int, Seq<u8>)>::empty(),
            ));
            assert(es + Seq::<(int, int, int, Seq<u8>)>::empty() =~= es);
            assert(coeff_entries(data@, start, total, n8r as nat) == Some(es));
            assert forall|e: int| 0 <= e < es.len() implies (#[trigger] es[e]).0 < 2 by {
                // mention the entry so the mirror's trigger fires
                let ghost en = entries@[e];
            }
        }
        if (max_constraint as usize) < (header.n_public as usize) {
            proof {
                assert(!matrices_ok(self.sections@, data@, expected_q@, expected_r@));
            }
            return Err(ZKeyParserError::InvalidGroth16Header);
        }
        proof {
            assert(matrices_ok(self.sections@, data@, expected_q@, expected_r@));
        }
        let num_constraints = (max_constraint as usize) - (header.n_public as usize);
        // second pass: gather each constraint's entries, dropping the
        // public-input rows beyond `num_constraints` as the backend
        // re-adds them itself
        let mut a: Vec<Vec<(Vec<u8>, usize)>> = Vec::new();
        let mut b: Vec<Vec<(Vec<u8>, usize)>> = Vec::new();
        let mut a_nnz: u64 = 0;
        let mut b_nnz: u64 = 0;
        let ecount = entries.len();
        let mut rr: usize = 0;
        while rr < num_constraints
            invariant
                dlen == data@.len(),
                n8r == header.n8r as usize,
                entries_mirror(entries@, es, data@, n8r as nat),
                ecount == entries@.len(),
                ecount <= 0xffffffff,
                num_constraints <= 0xffffffff,
                0 <= rr <= num_constraints,
                a@.len() == rr as int,
                b@.len() == rr as int,
                a_nnz as int == rows_nnz(a@),
                b_nnz as int == rows_nnz(b@),
                a_nnz as int <= rr as int * ecount as int,
                b_nnz as int <= rr as int * ecount as int,
                rows_values_sized(a@, header.n8r as nat),
                rows_values_sized(b@, header.n8r as nat),
                rows_match(a@, es, 0, rr as int),
                rows_match(b@, es, 1, rr as int),
            decreases num_constraints - rr,
        {
            let mut row_a: Vec<(Vec<u8>, usize)> = Vec::new();
            let mut row_b: Vec<(Vec<u8>, usize)> = Vec::new();
            let mut e: usize = 0;
            proof {
                assert(es.subrange(0, 0) =~= Seq::<(int, int, int, Seq<u8>)>::empty());
            }
            while e < ecount
                invariant
                    dlen == data@.len(),
                    n8r == header.n8r as usize,
                    ecount == entries@.len(),
                    entries_mirror(entries@, es, data@, n8r as nat),
                    0 <= e <= ecount,
                    row_a@.len() <= e,
                    row_b@.len() <= e,
                    forall|j: int|
                        0 <= j < row_a@.len() ==> (#[trigger] row_a@[j]).0@.len()
                            == header.n8r as nat,
                    forall|j: int|
                        0 <= j < row_b@.len() ==> (#[trigger] row_b@[j]).0@.len()
                            == header.n8r as nat,
                    row_view(row_a) == matrix_row(es.subrange(0, e as int), 0, rr as int),
                    row_view(row_b) == matrix_row(es.subrange(0, e as int), 1, rr as int),
                decreases ecount - e,
            {
                proof {
                    // mention the entry so the mirror's trigger fires
                    let ghost en2 = entries@[e as int];
                }
                let en = entries[e];
                let ghost prefix = es.subrange(0, e as int);
                proof {
                    assert(es.subrange(0, e + 1) =~= prefix.push(es[e as int]));
                    lemma_matrix_row_push(prefix, es[e as int], 0, rr as int);
                    lemma_matrix_row_push(prefix, es[e as int], 1, rr as int);
                }
                if (en.1 as usize) == rr {
                    let val = match read_bytes(data, en.2, n8r) {
                        Some(v) => v,
                        None => {
                            proof {
                                assert(false);
                            }
                            return Err(ZKeyParserError::UnexpectedEnd);
                        },
                    };
                    let ghost old_row_a = row_a;
                    let ghost old_row_b = row_b;
                    if en.0 == 0 {
                        row_a.push((val, en.3 as usize));
                        proof {
                            assert(row_view(row_a) =~= row_view(old_row_a).push(
                                (val@, en.3 as int),
                            ));
                        }
                    } else {
                        row_b.push((val, en.3 as usize));
                        proof {
                            assert(row_view(row_b) =~= row_view(old_row_b).push(
                                (val@, en.3 as int),
                            ));
                        }
                    }
                }
                e += 1;
            }
            proof {
                assert(es.subrange(0, ecount as int) =~= es);
                assert((rr as int + 1) * ecount as int == rr as int * ecount as int
                    + ecount as int) by (nonlinear_arith);
                assert((rr as int + 1) * ecount as int <= 0xffffffff * 0xffffffff)
                    by (nonlinear_arith)
                    requires
                        0 <= rr as int + 1 <= 0xffffffff,
                        0 <= ecount <= 0xffffffff,
                ;
            }
            a_nnz = a_nnz + (row_a.len() as u64);
            b_nnz = b_nnz + (row_b.len() as u64);
            let ghost old_a = a@;
            let ghost old_b = b@;
            a.push(row_a);
            b.push(row_b);
            proof {
                assert(a@.drop_last() =~= old_a);
                assert(b@.drop_last() =~= old_b);
                assert forall|r2: int|
                    #![trigger a@[r2]]
                    0 <= r2 < rr + 1 implies row_view(a@[r2]) == matrix_row(
                    es,
                    0,
                    r2,
                ) by {
                    let row = a@[r2];
                    if r2 < rr {
                        assert(old_a[r2] == a@[r2]);
                    }
                }
                assert forall|r2: int|
                    #![trigger b@[r2]]
                    0 <= r2 < rr + 1 implies row_view(b@[r2]) == matrix_row(
                    es,
                    1,
                    r2,
                ) by {
                    let row = b@[r2];
                    if r2 < rr {
                        assert(old_b[r2] == b@[r2]);
                    }
                }
                assert(rows_match(a@, es, 0, rr + 1));
                assert(rows_match(b@, es, 1, rr + 1));
            }
            rr += 1;
        }
        proof {
            let hsec = find_section(self.sections@, 2).unwrap();
            assert(header_matches(header, data@, hsec.position as int));
            let csec = find_section(self.sections@, 4).unwrap();
            assert(csec == sec);
            assert(coeff_entries(
                data@,
                csec.position + 4,
                u32_le(data@, csec.position as int) as nat,
                header.n8r as nat,
            ) == Some(es));
        }
        Ok(ConstraintMatricesData {
            num_instance_variables: (header.n_public as usize) + 1,
            num_witness_variables: (header.n_vars as usize) - (header.n_public as usize),
            num_constraints,
            a_num_non_zero: a_nnz,
            b_num_non_zero: b_nnz,
            c_num_non_zero: 0,
            a,
            b,
            c: Vec::new(),
        })
    }
}

/// A parsed zkey: the proving material and the constraint matrices.
pub struct ZKey {
    pub pk: ProvingKeyData,
    pub matrices: ConstraintMatricesData,
}

impl ZKey {
    /// Parses a whole zkey container, checking the recorded moduli
    /// against the expected base- and scalar-field moduli.
    pub fn from_reader(data: &Vec<u8>, expected_q: &Vec<u8>, expected_r: &Vec<u8>) -> (r: Result<
        ZKey,
        ZKeyParserError,
    >)
        ensures
            r is Ok <==> {
                let table = sections_from(data@, 12, u32_le(data@, 8) as nat);
                &&& data@.len() >= 12
                &&& table is Some
                &&& proving_key_ok(table.unwrap(), data@, expected_q@, expected_r@)
                &&& matrices_ok(table.unwrap(), data@, expected_q@, expected_r@)
            },
            r matches Err(e) ==> (e == ZKeyParserError::UnexpectedEnd || e
                == ZKeyParserError::InvalidGroth16Header),
    {
        let binfile = match BinFile::new(data) {
            Ok(bf) => bf,
            Err(e) => {
                return Err(e);
            },
        };
        let pk = match binfile.proving_key(data, expected_q, expected_r) {
            Ok(pk) => pk,
            Err(e) => {
                return Err(e);
            },
        };
        let matrices = match binfile.matrices(data, expected_q, expected_r) {
            Ok(m) => m,
            Err(e) => {
                return Err(e);
            },
        };
        Ok(ZKey { pk, matrices })
    }

    /// Hands out the proving material and the matrices.
    pub fn split(self) -> (r: (ProvingKeyData, ConstraintMatricesData))
        ensures
            r.0 == self.pk,
            r.1 == self.matrices,
    {
        (self.pk, self.matrices)
    }
}

} // verus!

