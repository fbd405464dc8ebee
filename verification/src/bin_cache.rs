use vstd::prelude::*;

use bincode::config;

use crate::dict::{Candidate, DictKind, DictKindName, StringArena};
use crate::fuzz_dict::FuzzDict;
use crate::prefix_dict::{codes_of, codes_sorted, ranges_ok, PrefixDict};

verus! {

// ---------------------------------------------------------------------------
// The binary cache of a table: a 30-byte header (magic, format version, time of
// the text table), the arena, and the candidates, each in bincode's standard form
// ---------------------------------------------------------------------------

/// The version of the cache format, which stores the arena as characters and places
/// in it by character.
pub const VERSION: i64 = 15i64;

/// The most bytes that decoding a sequence of the cache may claim: the largest
/// allocation a `Vec` can make (`isize::MAX`). bincode refuses a length prefix that
/// would claim more, rather than fail to allocate for it.
pub const DECODE_LIMIT: usize = usize::MAX / 2;

/// Whether decoding `n` characters stays within `DECODE_LIMIT`: bincode claims 8 bytes
/// for the length and 4 per character before it allocates them, as a `Vec<char>`
/// takes.
pub open spec fn chars_fit(n: int) -> bool {
    4 * n + 8 <= DECODE_LIMIT
}

/// Whether decoding `n` candidates stays within `DECODE_LIMIT`: 8 bytes for the length
/// and 16 per candidate.
pub open spec fn cands_fit(n: int) -> bool {
    16 * n + 8 <= DECODE_LIMIT
}

/// Whether decoding a prefix index of `k` key characters, `m` key places and `i`
/// blocks stays within `DECODE_LIMIT`: the three sequences are decoded at once, with
/// 8 bytes for each length, 4 per character and 16 per pair.
pub open spec fn prism_fits(k: int, m: int, i: int) -> bool {
    4 * k + 16 * m + 16 * i + 24 <= DECODE_LIMIT
}

/// The magic characters at the start of a cache.
pub open spec fn magic() -> Seq<char> {
    seq!['s', 'e', 'n', 'i', 'm', 'e']
}

/// A candidate as the cache stores it.
pub type CandTuple = (u32, u16, u32, u16, i32);

pub open spec fn cand_tuples(c: Seq<Candidate>) -> Seq<CandTuple> {
    Seq::new(c.len(), |i: int| (c[i].code.0, c[i].code.1, c[i].text.0, c[i].text.1, c[i].weight))
}

pub open spec fn tuple_cands(t: Seq<CandTuple>) -> Seq<Candidate> {
    Seq::new(
        t.len(),
        |i: int| Candidate { code: (t[i].0, t[i].1), text: (t[i].2, t[i].3), weight: t[i].4 },
    )
}

/// bincode's standard encoding of a header `(head, ver, mtime)`.
pub uninterp spec fn bin_head(head: Seq<char>, ver: i64, mtime: i64) -> Seq<u8>;

/// bincode's standard encoding of a sequence of characters.
pub uninterp spec fn bin_chars(v: Seq<char>) -> Seq<u8>;

/// bincode's standard encoding of a sequence of candidates.
pub uninterp spec fn bin_cands(v: Seq<CandTuple>) -> Seq<u8>;

/// What bincode's standard decoding reads as a header from the start of `bytes`.
pub uninterp spec fn unbin_head(bytes: Seq<u8>) -> Option<(Seq<char>, i64, i64)>;

/// What bincode's standard decoding, limited to `DECODE_LIMIT` bytes, reads as
/// characters from the start of `bytes`, with the number of bytes read.
pub uninterp spec fn unbin_chars(bytes: Seq<u8>) -> Option<(Seq<char>, nat)>;

/// What bincode's standard decoding, limited to `DECODE_LIMIT` bytes, reads as
/// candidates from the start of `bytes`, with the number of bytes read.
pub uninterp spec fn unbin_cands(bytes: Seq<u8>) -> Option<(Seq<CandTuple>, nat)>;

/// bincode's standard encoding of a prefix index: its keys, where each key lies in
/// them, and the blocks of candidates, one after another.
pub uninterp spec fn bin_prism(keys: Seq<char>, meta: Seq<(usize, usize)>, idx: Seq<(usize, usize)>) -> Seq<u8>;

/// What bincode's standard decoding, limited to `DECODE_LIMIT` bytes, reads as a prefix
/// index from the start of `bytes`.
pub uninterp spec fn unbin_prism(bytes: Seq<u8>) -> Option<(Seq<char>, Seq<(usize, usize)>, Seq<(usize, usize)>)>;

/// `bincode::encode_to_vec` of a header: a character is its UTF-8 bytes and an
/// integer takes at most 9 bytes, so a header of ASCII characters takes at most 24.
#[verifier::external_body]
fn encode_head(head: [char; 6], ver: i64, mtime: i64) -> (r: Vec<u8>)
    ensures
        r@ == bin_head(head@, ver, mtime),
        (forall|k: int| 0 <= k < 6 ==> (#[trigger] head@[k] as u32) < 128) ==> r@.len() <= 24,
{
    bincode::encode_to_vec((head, ver, mtime), config::standard()).unwrap()
}

/// `bincode::encode_to_vec` of characters.
#[verifier::external_body]
fn encode_chars(v: &Vec<char>) -> (r: Vec<u8>)
    ensures
        r@ == bin_chars(v@),
{
    bincode::encode_to_vec(v, config::standard()).unwrap()
}

/// `bincode::encode_to_vec` of candidates.
#[verifier::external_body]
fn encode_cands(v: &Vec<CandTuple>) -> (r: Vec<u8>)
    ensures
        r@ == bin_cands(v@),
{
    bincode::encode_to_vec(v, config::standard()).unwrap()
}

/// `bincode::encode_to_vec` of the three sequences of a prefix index, one after
/// another.
#[verifier::external_body]
fn encode_prism(keys: &Vec<char>, meta: &Vec<(usize, usize)>, idx: &Vec<(usize, usize)>) -> (r: Vec<u8>)
    ensures
        r@ == bin_prism(keys@, meta@, idx@),
{
    bincode::encode_to_vec((keys, meta, idx), config::standard()).unwrap()
}

/// `bincode::decode_from_slice` of the three sequences of a prefix index, under the
/// limit `DECODE_LIMIT`. Decoding input that begins with the encoding of an index that
/// fits the limit (`prism_fits`) succeeds.
#[verifier::external_body]
fn decode_prism(bytes: &[u8]) -> (r: Option<(Vec<char>, Vec<(usize, usize)>, Vec<(usize, usize)>)>)
    ensures
        r is Some <==> unbin_prism(bytes@) is Some,
        r matches Some(d) ==> unbin_prism(bytes@) == Some((d.0@, d.1@, d.2@)),
        r is None ==> forall|k: Seq<char>, m: Seq<(usize, usize)>, i: Seq<(usize, usize)>|
            prism_fits(k.len() as int, m.len() as int, i.len() as int) ==> !(#[trigger] bin_prism(
                k,
                m,
                i,
            ).is_prefix_of(bytes@)),
{
    bincode::decode_from_slice::<(Vec<char>, Vec<(usize, usize)>, Vec<(usize, usize)>), _>(
        bytes,
        config::standard().with_limit::<DECODE_LIMIT>(),
    ).ok().map(|d| d.0)
}

/// `bincode::decode_from_slice` of a header. Decoding the start of bytes that begin
/// with the encoding of a header gives that header back.
#[verifier::external_body]
fn decode_head(bytes: &[u8]) -> (r: Option<([char; 6], i64, i64)>)
    ensures
        r is Some <==> unbin_head(bytes@) is Some,
        r matches Some(h) ==> unbin_head(bytes@) == Some((h.0@, h.1, h.2)),
        r is None ==> forall|h: Seq<char>, v: i64, m: i64|
            h.len() == 6 ==> !(#[trigger] bin_head(h, v, m).is_prefix_of(bytes@)),
        r matches Some(x) ==> forall|h: Seq<char>, v: i64, m: i64|
            h.len() == 6 && #[trigger] bin_head(h, v, m).is_prefix_of(bytes@) ==> x.0@ == h && x.1 == v
                && x.2 == m,
{
    bincode::decode_from_slice::<([char; 6], i64, i64), _>(bytes, config::standard()).ok().map(|d| d.0)
}

/// `bincode::decode_from_slice` of characters, with the number of bytes read, under
/// the limit `DECODE_LIMIT` (a length prefix that claims more is an error, not an
/// allocation). Decoding input that begins with the encoding of some characters gives
/// them back, having read exactly their encoding, and succeeds when they fit the limit
/// (`chars_fit`).
#[verifier::external_body]
fn decode_chars(bytes: &[u8]) -> (r: Option<(Vec<char>, usize)>)
    ensures
        r is Some <==> unbin_chars(bytes@) is Some,
        r matches Some(d) ==> unbin_chars(bytes@) == Some((d.0@, d.1 as nat)) && d.1 <= bytes@.len(),
        r is None ==> forall|x: Seq<char>|
            chars_fit(x.len() as int) ==> !(#[trigger] bin_chars(x).is_prefix_of(bytes@)),
        r matches Some(d) ==> forall|x: Seq<char>|
            #[trigger] bin_chars(x).is_prefix_of(bytes@) ==> d.0@ == x && d.1 == bin_chars(x).len(),
{
    bincode::decode_from_slice::<Vec<char>, _>(bytes, config::standard().with_limit::<DECODE_LIMIT>()).ok()
}

/// `bincode::decode_from_slice` of candidates, with the number of bytes read, under
/// the limit `DECODE_LIMIT` (a length prefix that claims more is an error, not an
/// allocation). Decoding input that begins with the encoding of some candidates gives
/// them back, having read exactly their encoding, and succeeds when they fit the limit
/// (`cands_fit`).
#[verifier::external_body]
fn decode_cands(bytes: &[u8]) -> (r: Option<(Vec<CandTuple>, usize)>)
    ensures
        r is Some <==> unbin_cands(bytes@) is Some,
        r matches Some(d) ==> unbin_cands(bytes@) == Some((d.0@, d.1 as nat)) && d.1 <= bytes@.len(),
        r is None ==> forall|x: Seq<CandTuple>|
            cands_fit(x.len() as int) ==> !(#[trigger] bin_cands(x).is_prefix_of(bytes@)),
        r matches Some(d) ==> forall|x: Seq<CandTuple>|
            #[trigger] bin_cands(x).is_prefix_of(bytes@) ==> d.0@ == x && d.1 == bin_cands(x).len(),
{
    bincode::decode_from_slice::<Vec<CandTuple>, _>(bytes, config::standard().with_limit::<DECODE_LIMIT>()).ok()
}

/// The header of a cache: the encoded magic, version and time, then zeros up to 30
/// bytes.
pub open spec fn head_bytes(mtime: i64) -> Seq<u8> {
    let h = bin_head(magic(), VERSION, mtime);
    h + Seq::new((30 - h.len()) as nat, |i: int| 0u8)
}

/// The cache of a table with `arena` and `cands`, made from a text table of time
/// `mtime`.
pub open spec fn cache_bytes(arena: Seq<char>, cands: Seq<Candidate>, mtime: i64) -> Seq<u8> {
    head_bytes(mtime) + bin_chars(arena) + bin_cands(cand_tuples(cands))
}

/// The prefix index section of the cache of a table of `kind`: the index's encoding
/// for a prefix table, nothing for a fuzzy one.
pub open spec fn prism_section(
    kind: DictKindName,
    keys: Seq<char>,
    meta: Seq<(usize, usize)>,
    idx: Seq<(usize, usize)>,
) -> Seq<u8> {
    if kind == DictKindName::Prefix {
        bin_prism(keys, meta, idx)
    } else {
        Seq::empty()
    }
}

/// The whole cache of a table of `kind`: header, arena, candidates and, for a prefix
/// table, its index.
pub open spec fn full_cache(
    kind: DictKindName,
    arena: Seq<char>,
    cands: Seq<Candidate>,
    mtime: i64,
    keys: Seq<char>,
    meta: Seq<(usize, usize)>,
    idx: Seq<(usize, usize)>,
) -> Seq<u8> {
    cache_bytes(arena, cands, mtime) + prism_section(kind, keys, meta, idx)
}

/// Whether each part of a cache decodes within `DECODE_LIMIT`: the arena, the
/// candidates and, for a prefix table, its index.
pub open spec fn cache_fits(
    kind: DictKindName,
    arena: Seq<char>,
    cands: Seq<Candidate>,
    keys: Seq<char>,
    meta: Seq<(usize, usize)>,
    idx: Seq<(usize, usize)>,
) -> bool {
    &&& chars_fit(arena.len() as int)
    &&& cands_fit(cands.len() as int)
    &&& kind == DictKindName::Prefix ==> prism_fits(keys.len() as int, meta.len() as int, idx.len() as int)
}

/// The stored form of the prefix index of a table (empty for a fuzzy one).
pub open spec fn index_parts(d: DictKind) -> (Seq<char>, Seq<(usize, usize)>, Seq<(usize, usize)>) {
    match d {
        DictKind::Prefix(p) => (p.prism_view().keys_raw(), p.prism_view().meta_raw(), p.prism_view().indices_view()),
        DictKind::Fuzzy(_) => (Seq::empty(), Seq::empty(), Seq::empty()),
    }
}

/// The arena and candidates of a table.
pub open spec fn table_parts(d: DictKind) -> (Seq<char>, Seq<Candidate>) {
    match d {
        DictKind::Prefix(p) => (p.arena_view(), p.cands_view()),
        DictKind::Fuzzy(f) => (f.arena_view(), f.cands_view()),
    }
}

/// The kind of a table.
pub open spec fn kind_of(d: DictKind) -> DictKindName {
    match d {
        DictKind::Prefix(_) => DictKindName::Prefix,
        DictKind::Fuzzy(_) => DictKindName::Fuzzy,
    }
}

/// How reading a cache ends.
pub enum CacheRead {
    BadHead,
    Stale,
    BadArena,
    BadCandidates,
    BadPrism,
    BadTable,
    Table(Seq<char>, Seq<Candidate>),
}

/// Whether a table of `kind` can hold `arena` and `cands`.
pub open spec fn table_ok(kind: DictKindName, arena: Seq<char>, cands: Seq<Candidate>) -> bool {
    ranges_ok(arena, cands) && (kind == DictKindName::Prefix ==> codes_sorted(codes_of(arena, cands)))
}

/// Reading `bytes` as the cache of a text table of time `txt_mtime` (0 when unknown):
/// the first 30 bytes are the header, which must hold the magic, the version and that
/// time (fewer bytes are a bad header); then come the arena and the candidates.
pub open spec fn read_cache(txt_mtime: i64, kind: DictKindName, bytes: Seq<u8>) -> CacheRead {
    if bytes.len() < 30 {
        CacheRead::BadHead
    } else {
        read_cache_from_head(txt_mtime, kind, bytes)
    }
}

/// `read_cache` of at least 30 bytes.
pub open spec fn read_cache_from_head(txt_mtime: i64, kind: DictKindName, bytes: Seq<u8>) -> CacheRead {
    match unbin_head(bytes.subrange(0, 30)) {
        None => CacheRead::BadHead,
        Some(h) => if !(h.0 == magic() && h.1 == VERSION && (txt_mtime == 0 || txt_mtime == h.2)) {
            CacheRead::Stale
        } else {
            let rest = bytes.subrange(30, bytes.len() as int);
            match unbin_chars(rest) {
                None => CacheRead::BadArena,
                Some(a) => {
                    let tail = rest.subrange(a.1 as int, rest.len() as int);
                    match unbin_cands(tail) {
                        None => CacheRead::BadCandidates,
                        Some(c) => if kind == DictKindName::Prefix && unbin_prism(
                            tail.subrange(c.1 as int, tail.len() as int),
                        ) is None {
                            CacheRead::BadPrism
                        } else if table_ok(kind, a.0, tuple_cands(c.0)) {
                            CacheRead::Table(a.0, tuple_cands(c.0))
                        } else {
                            CacheRead::BadTable
                        },
                    }
                },
            }
        },
    }
}

/// The message of a failed read.
pub open spec fn read_message(r: CacheRead) -> Seq<char> {
    match r {
        CacheRead::BadHead => "无效的二进制数据[HEAD]"@,
        CacheRead::Stale => "码表已更新，重新构建二进制文件"@,
        CacheRead::BadArena => "无效的二进制数据[ARENA]"@,
        CacheRead::BadCandidates => "无效的二进制数据[CANDIDATES]"@,
        CacheRead::BadPrism => "无效的二进制数据[PRISM]"@,
        _ => "无效的二进制数据[TABLE]"@,
    }
}

impl DictKind {
    /// The binary cache of the table, made from a text table of time `mtime`.
    pub fn to_bin(&self, mtime: i64) -> (r: Vec<u8>)
        ensures
            r@ == full_cache(
                kind_of(*self),
                table_parts(*self).0,
                table_parts(*self).1,
                mtime,
                index_parts(*self).0,
                index_parts(*self).1,
                index_parts(*self).2,
            ),
            bin_head(magic(), VERSION, mtime).len() <= 24,
            table_ok(kind_of(*self), table_parts(*self).0, table_parts(*self).1),
    {
        let (arena, cands) = match self {
            DictKind::Prefix(d) => (d.arena(), d.candidates()),
            DictKind::Fuzzy(d) => (d.arena(), d.candidates()),
        };
        let head = encode_head(['s', 'e', 'n', 'i', 'm', 'e'], VERSION, mtime);
        proof {
            let h = ['s', 'e', 'n', 'i', 'm', 'e'];
            assert(h@ =~= magic());
        }
        let mut buf: Vec<u8> = Vec::new();
        let mut k: usize = 0;
        while k < 30
            invariant
                head@.len() <= 24,
                k <= 30,
                buf@.len() == k,
                forall|t: int| 0 <= t < k ==> #[trigger] buf@[t] == (if t < head@.len() {
                    head@[t]
                } else {
                    0u8
                }),
            decreases 30 - k,
        {
            if k < head.len() {
                buf.push(head[k]);
            } else {
                buf.push(0u8);
            }
            k += 1;
        }
        assert(buf@ =~= head_bytes(mtime));
        let mut a = encode_chars(arena.chars());
        let mut tuples: Vec<CandTuple> = Vec::new();
        let mut i: usize = 0;
        while i < cands.len()
            invariant
                i <= cands@.len(),
                tuples@ =~= cand_tuples(cands@).subrange(0, i as int),
            decreases cands@.len() - i,
        {
            let c = cands[i];
            tuples.push((c.code.0, c.code.1, c.text.0, c.text.1, c.weight));
            i += 1;
        }
        assert(tuples@ =~= cand_tuples(cands@));
        let mut c = encode_cands(&tuples);
        buf.append(&mut a);
        buf.append(&mut c);
        match self {
            DictKind::Prefix(d) => {
                let (k, m, x) = d.prism().parts();
                let mut p = encode_prism(k, m, x);
                buf.append(&mut p);
            },
            DictKind::Fuzzy(_) => {
                assert(buf@ =~= buf@ + Seq::<u8>::empty());
            },
        }
        buf
    }

    /// Reads a table of `kind` from its binary cache (see `read_cache`); a cache made
    /// by `to_bin` from a table gives that table back when its time matches.
    pub fn from_bin(txt_mtime: i64, kind: DictKindName, bytes: &[u8]) -> (r: Result<DictKind, String>)
        ensures
            match read_cache(txt_mtime, kind, bytes@) {
                CacheRead::Table(a, c) => r matches Ok(d) && table_parts(d) == (a, c) && (kind
                    == DictKindName::Prefix <==> d is Prefix),
                other => r matches Err(m) && m@ == read_message(other),
            },
            forall|a: Seq<char>, c: Seq<Candidate>, m: i64, pk: Seq<char>, pm: Seq<(usize, usize)>, pi: Seq<(usize, usize)>|
                #[trigger] full_cache(kind, a, c, m, pk, pm, pi).is_prefix_of(bytes@) && bin_head(
                    magic(),
                    VERSION,
                    m,
                ).len() <= 30 && (txt_mtime == 0 || txt_mtime == m) && table_ok(kind, a, c)
                    && cache_fits(kind, a, c, pk, pm, pi) ==> read_cache(txt_mtime, kind, bytes@) == CacheRead::Table(a, c),
            forall|m: i64|
                #[trigger] head_bytes(m).is_prefix_of(bytes@) && bin_head(magic(), VERSION, m).len() <= 30
                    && txt_mtime != 0 && txt_mtime != m ==> read_cache(txt_mtime, kind, bytes@)
                    == CacheRead::Stale,
    {
        if bytes.len() < 30 {
            proof {
                assert forall|a: Seq<char>, c: Seq<Candidate>, m: i64, pk: Seq<char>, pm: Seq<(usize, usize)>, pi: Seq<(usize, usize)>|
                    #[trigger] full_cache(kind, a, c, m, pk, pm, pi).is_prefix_of(bytes@) implies false by {
                    assert(head_bytes(m).len() == 30);
                }
                assert forall|m: i64| #[trigger] head_bytes(m).is_prefix_of(bytes@) implies false by {
                    assert(head_bytes(m).len() == 30);
                }
            }
            return Err("无效的二进制数据[HEAD]".to_owned());
        }
        let head = vstd::slice::slice_subrange(bytes, 0, 30);
        let rest = vstd::slice::slice_subrange(bytes, 30, bytes.len());
        let hd = decode_head(head);
        proof {
            assert forall|m: i64|
                #[trigger] head_bytes(m).is_prefix_of(bytes@) && bin_head(magic(), VERSION, m).len()
                    <= 30 && txt_mtime != 0 && txt_mtime != m implies read_cache(txt_mtime, kind, bytes@)
                == CacheRead::Stale by {
                let hb = bin_head(magic(), VERSION, m);
                assert(head_bytes(m).len() == 30);
                assert(head@ =~= bytes@.subrange(0, 30));
                assert(head@ =~= head_bytes(m));
                assert(hb.is_prefix_of(head@)) by {
                    assert(head_bytes(m).subrange(0, hb.len() as int) =~= hb);
                }
                assert(magic().len() == 6);
                assert(hd is Some);
            }
        }
        let ad = decode_chars(rest);
        let n1: usize = match &ad {
            Some(d) => d.1,
            None => 0,
        };
        let tail = vstd::slice::slice_subrange(rest, n1, rest.len());
        let cd = decode_cands(tail);
        let n2: usize = match &cd {
            Some(d) => d.1,
            None => 0,
        };
        let tail2 = vstd::slice::slice_subrange(tail, n2, tail.len());
        let pd_ok = match kind {
            DictKindName::Prefix => decode_prism(tail2).is_some(),
            DictKindName::Fuzzy => true,
        };
        proof {
            assert forall|a: Seq<char>, c: Seq<Candidate>, m: i64, pk: Seq<char>, pm: Seq<(usize, usize)>, pi: Seq<(usize, usize)>|
                #[trigger] full_cache(kind, a, c, m, pk, pm, pi).is_prefix_of(bytes@) && bin_head(
                    magic(),
                    VERSION,
                    m,
                ).len() <= 30 && (txt_mtime == 0 || txt_mtime == m) && table_ok(kind, a, c)
                    && cache_fits(kind, a, c, pk, pm, pi) implies read_cache(
                txt_mtime,
                kind,
                bytes@,
            ) == CacheRead::Table(a, c) by {
                let f = full_cache(kind, a, c, m, pk, pm, pi);
                let t0 = bytes@.subrange(f.len() as int, bytes@.len() as int);
                let t = prism_section(kind, pk, pm, pi) + t0;
                assert(f.is_prefix_of(bytes@));
                assert(bytes@.subrange(0, f.len() as int) == f);
                assert(bytes@ =~= f + t0);
                assert(f + t0 =~= cache_bytes(a, c, m) + t);
                lemma_read_back(bytes@, a, c, m, t);
                assert(bin_head(magic(), VERSION, m).is_prefix_of(head@));
                assert(bin_chars(a).is_prefix_of(rest@));
                assert(n1 == bin_chars(a).len());
                assert(bin_cands(cand_tuples(c)).is_prefix_of(tail@));
                assert(n2 == bin_cands(cand_tuples(c)).len());
                assert(tail2@ =~= t);
                if kind == DictKindName::Prefix {
                    assert(bin_prism(pk, pm, pi).is_prefix_of(tail2@));
                }
                lemma_tuples_back(c);
            }
        }
        let h = match hd {
            Some(h) => h,
            None => {
                return Err("无效的二进制数据[HEAD]".to_owned());
            },
        };
        let magic_ok = h.0[0] == 's' && h.0[1] == 'e' && h.0[2] == 'n' && h.0[3] == 'i' && h.0[4]
            == 'm' && h.0[5] == 'e';
        proof {
            assert(magic_ok == (h.0@ =~= magic()));
        }
        if !(magic_ok && h.1 == VERSION && (txt_mtime == 0 || txt_mtime == h.2)) {
            return Err("码表已更新，重新构建二进制文件".to_owned());
        }
        let arena = match ad {
            Some(d) => d.0,
            None => {
                return Err("无效的二进制数据[ARENA]".to_owned());
            },
        };
        let tuples = match cd {
            Some(d) => d.0,
            None => {
                return Err("无效的二进制数据[CANDIDATES]".to_owned());
            },
        };
        if !pd_ok {
            return Err("无效的二进制数据[PRISM]".to_owned());
        }
        let mut cands: Vec<Candidate> = Vec::new();
        let mut i: usize = 0;
        while i < tuples.len()
            invariant
                i <= tuples@.len(),
                cands@ =~= tuple_cands(tuples@).subrange(0, i as int),
            decreases tuples@.len() - i,
        {
            let t = tuples[i];
            cands.push(Candidate { code: (t.0, t.1), text: (t.2, t.3), weight: t.4 });
            i += 1;
        }
        assert(cands@ =~= tuple_cands(tuples@));
        let arena = StringArena::from_chars(arena);
        match kind {
            DictKindName::Prefix => match PrefixDict::from_table(arena, cands) {
                Some(d) => Ok(DictKind::Prefix(d)),
                None => Err("无效的二进制数据[TABLE]".to_owned()),
            },
            DictKindName::Fuzzy => match FuzzDict::from_table(arena, cands) {
                Some(d) => Ok(DictKind::Fuzzy(d)),
                None => Err("无效的二进制数据[TABLE]".to_owned()),
            },
        }
    }
}

proof fn lemma_tuples_back(c: Seq<Candidate>)
    ensures
        tuple_cands(cand_tuples(c)) == c,
{
    assert(tuple_cands(cand_tuples(c)) =~= c);
}

proof fn lemma_read_back(bytes: Seq<u8>, a: Seq<char>, c: Seq<Candidate>, m: i64, tail: Seq<u8>)
    requires
        bytes == cache_bytes(a, c, m) + tail,
        bin_head(magic(), VERSION, m).len() <= 30,
    ensures
        bin_head(magic(), VERSION, m).is_prefix_of(bytes.subrange(0, 30)),
        bin_chars(a).is_prefix_of(bytes.subrange(30, bytes.len() as int)),
        bytes.subrange(30, bytes.len() as int).subrange(
            bin_chars(a).len() as int,
            bytes.subrange(30, bytes.len() as int).len() as int,
        ) == bin_cands(cand_tuples(c)) + tail,
{
    let hb = head_bytes(m);
    assert(hb.len() == 30);
    assert(bytes.subrange(0, 30) =~= hb);
    assert(bin_head(magic(), VERSION, m).is_prefix_of(bytes.subrange(0, 30)));
    let rest = bytes.subrange(30, bytes.len() as int);
    assert(rest =~= bin_chars(a) + bin_cands(cand_tuples(c)) + tail);
    assert(bin_chars(a).is_prefix_of(rest));
    assert(rest.subrange(bin_chars(a).len() as int, rest.len() as int) =~= bin_cands(cand_tuples(c))
        + tail);
}

} // verus!
