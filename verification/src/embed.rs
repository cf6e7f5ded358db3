use vstd::prelude::*;
use vstd::bytes::{
    spec_u32_from_le_bytes, spec_u32_to_le_bytes, spec_u64_from_le_bytes, spec_u64_to_le_bytes,
    u32_from_le_bytes, u32_to_le_bytes, u64_from_le_bytes, u64_to_le_bytes,
};
use std::collections::hash_map::DefaultHasher;
use std::hash::Hasher;
use vstd::std_specs::hash::DefaultHasherAdditionalSpecFns;
use vstd::utf8::{decode_utf8, encode_utf8};
use crate::extractor::{Function, opt_view};
use crate::text::{replace_char, replace_chars, take_chars};

verus! {

// ---------------------------------------------------------------------------
// The text that stands for a function in the semantic index.
// ---------------------------------------------------------------------------

/// The owner, the name with `_` read as spaces, the documentation and the first 400
/// characters of the source: `"{owner} {name}. {doc}\n{body}"`.
pub open spec fn doc_text_of(f: Function) -> Seq<char> {
    let owner = match opt_view(f.owner) {
        Some(o) => o,
        None => Seq::empty(),
    };
    let body = if f.body@.len() <= 400 { f.body@ } else { f.body@.take(400) };
    owner + " "@ + replace_char(f.name@, '_', ' ') + ". "@ + f.doc@ + "\n"@ + body
}

/// The text that represents a function for embedding: owner, name, documentation and the
/// start of its source.
pub fn doc_text(f: &Function) -> (res: String)
    ensures
        res@ == doc_text_of(*f),
{
    let mut s = match &f.owner {
        Some(o) => o.clone(),
        None => String::new(),
    };
    s.append(" ");
    let name = replace_chars(f.name.as_str(), '_', ' ');
    s.append(name.as_str());
    s.append(". ");
    s.append(f.doc.as_str());
    s.append("\n");
    let body = take_chars(f.body.as_str(), 400);
    s.append(body.as_str());
    s
}

// ---------------------------------------------------------------------------
// The fingerprint of a project's functions.
// ---------------------------------------------------------------------------

/// The byte strings the fingerprint feeds the hasher for an owner: the byte 1, the
/// owner's text and the byte 0xff, or the byte 0 for a free function.
pub open spec fn owner_writes(owner: Option<Seq<char>>) -> Seq<Seq<u8>> {
    match owner {
        Some(o) => seq![seq![1u8], encode_utf8(o), seq![0xffu8]],
        None => seq![seq![0u8]],
    }
}

/// The byte strings the fingerprint feeds the hasher for one function: its file, its line
/// as the eight little-endian bytes of a `u64`, its owner, its source and its
/// documentation. Each text is followed by the byte 0xff, which no UTF-8 text holds, so
/// that no two lists of functions give the same stream of bytes.
pub open spec fn function_writes(f: Function) -> Seq<Seq<u8>> {
    seq![encode_utf8(f.file@), seq![0xffu8], spec_u64_to_le_bytes(f.line as u64)]
        + owner_writes(opt_view(f.owner))
        + seq![encode_utf8(f.body@), seq![0xffu8], encode_utf8(f.doc@), seq![0xffu8]]
}

/// The byte strings the fingerprint feeds the hasher for all functions, in order.
pub open spec fn fingerprint_writes(funcs: Seq<Function>) -> Seq<Seq<u8>>
    decreases funcs.len(),
{
    if funcs.len() == 0 {
        Seq::empty()
    } else {
        fingerprint_writes(funcs.drop_last()) + function_writes(funcs.last())
    }
}

/// A hash of the file, line, owner, source and documentation of every function, in order; the
/// index is rebuilt when it changes. It is what `DefaultHasher` finishes with after the
/// writes of `fingerprint_writes`.
pub fn fingerprint(funcs: &[Function]) -> (res: u64)
    ensures
        res == DefaultHasher::spec_finish(fingerprint_writes(funcs@)),
{
    let mut h = DefaultHasher::new();
    let end: Vec<u8> = vec![0xffu8];
    let some: Vec<u8> = vec![1u8];
    let none: Vec<u8> = vec![0u8];
    let mut i: usize = 0;
    while i < funcs.len()
        invariant
            0 <= i <= funcs@.len(),
            end@ == seq![0xffu8],
            some@ == seq![1u8],
            none@ == seq![0u8],
            h@ == fingerprint_writes(funcs@.take(i as int)),
        decreases funcs@.len() - i,
    {
        let f = &funcs[i];
        let ghost before = h@;
        h.write(f.file.as_str().as_bytes());
        h.write(end.as_slice());
        let line = u64_to_le_bytes(f.line as u64);
        h.write(line.as_slice());
        match &f.owner {
            Some(o) => {
                h.write(some.as_slice());
                h.write(o.as_str().as_bytes());
                h.write(end.as_slice());
            },
            None => {
                h.write(none.as_slice());
            },
        }
        h.write(f.body.as_str().as_bytes());
        h.write(end.as_slice());
        h.write(f.doc.as_str().as_bytes());
        h.write(end.as_slice());
        proof {
            let next = funcs@.take(i + 1);
            assert(next.drop_last() =~= funcs@.take(i as int));
            assert(next.last() == *f);
            assert(h@ =~= before + function_writes(*f));
        }
        i = i + 1;
    }
    assert(funcs@.take(funcs@.len() as int) =~= funcs@);
    h.finish()
}

/// The fields of a function that its fingerprint covers.
pub open spec fn fingerprinted(f: Function) -> (Seq<char>, usize, Option<Seq<char>>, Seq<char>, Seq<char>) {
    (f.file@, f.line, opt_view(f.owner), f.body@, f.doc@)
}

/// The writes for one function: seven or ten, with the owner's tag or terminator five from
/// the end.
proof fn lemma_function_writes_shape(f: Function)
    ensures
        f.owner is None ==> function_writes(f).len() == 8 && function_writes(f)[3] == seq![0u8],
        f.owner is Some ==> function_writes(f).len() == 10 && function_writes(f)[5] == seq![0xffu8],
{
}

/// Law: the bytes the fingerprint hashes determine, function by function, the file, line,
/// owner, source and documentation. So two lists that differ in any of these (a renamed
/// owner included) feed the hasher differently, and only a collision of the 64-bit hash
/// can leave the fingerprint unchanged.
pub proof fn lemma_fingerprint_writes_determine(a: Seq<Function>, b: Seq<Function>)
    requires
        fingerprint_writes(a) == fingerprint_writes(b),
    ensures
        a.len() == b.len(),
        forall|k: int| 0 <= k < a.len() ==> fingerprinted(#[trigger] a[k]) == fingerprinted(b[k]),
    decreases a.len(),
{
    broadcast use vstd::utf8::encode_utf8_decode_utf8;

    if a.len() == 0 && b.len() == 0 {
    } else if a.len() == 0 {
        lemma_function_writes_shape(b.last());
        assert(fingerprint_writes(b).len() >= function_writes(b.last()).len());
    } else if b.len() == 0 {
        lemma_function_writes_shape(a.last());
        assert(fingerprint_writes(a).len() >= function_writes(a.last()).len());
    } else {
        let fa = a.last();
        let fb = b.last();
        let wa = function_writes(fa);
        let wb = function_writes(fb);
        let pa = fingerprint_writes(a.drop_last());
        let pb = fingerprint_writes(b.drop_last());
        let w = fingerprint_writes(a);
        let n = w.len();
        lemma_function_writes_shape(fa);
        lemma_function_writes_shape(fb);
        assert(w == pa + wa);
        assert(w == pb + wb);
        assert(w[n - 5] == wa[wa.len() - 5]);
        assert(w[n - 5] == wb[wb.len() - 5]);
        assert(seq![0u8][0] != seq![0xffu8][0]);
        assert(fa.owner is Some <==> fb.owner is Some);
        let l = wa.len() as int;
        assert(wa =~= w.subrange(n - l, n as int));
        assert(wb =~= w.subrange(n - l, n as int));
        assert(pa =~= w.take(n - l));
        assert(pb =~= w.take(n - l));
        lemma_fingerprint_writes_determine(a.drop_last(), b.drop_last());
        vstd::bytes::lemma_auto_spec_u64_to_from_le_bytes();
        assert(wa[0] == wb[0]);
        assert(decode_utf8(encode_utf8(fa.file@)) == fa.file@);
        assert(decode_utf8(encode_utf8(fb.file@)) == fb.file@);
        assert(wa[2] == wb[2]);
        assert(spec_u64_from_le_bytes(spec_u64_to_le_bytes(fa.line as u64)) == fa.line as u64);
        assert(spec_u64_from_le_bytes(spec_u64_to_le_bytes(fb.line as u64)) == fb.line as u64);
        assert(wa[l - 4] == wb[l - 4]);
        assert(wa[l - 2] == wb[l - 2]);
        assert(decode_utf8(encode_utf8(fa.body@)) == fa.body@);
        assert(decode_utf8(encode_utf8(fb.body@)) == fb.body@);
        assert(decode_utf8(encode_utf8(fa.doc@)) == fa.doc@);
        assert(decode_utf8(encode_utf8(fb.doc@)) == fb.doc@);
        if fa.owner is Some {
            assert(wa[4] == wb[4]);
            let oa = opt_view(fa.owner)->0;
            let ob = opt_view(fb.owner)->0;
            assert(decode_utf8(encode_utf8(oa)) == oa);
            assert(decode_utf8(encode_utf8(ob)) == ob);
        }
        assert(fingerprinted(fa) == fingerprinted(fb));
        assert forall|k: int| 0 <= k < a.len() implies fingerprinted(#[trigger] a[k]) == fingerprinted(b[k]) by {
            if k < a.len() - 1 {
                assert(a[k] == a.drop_last()[k]);
                assert(b[k] == b.drop_last()[k]);
            }
        }
    }
}

// ---------------------------------------------------------------------------
// Where the index is kept.
// ---------------------------------------------------------------------------

/// The path `Path::join` makes of a base path and a relative part, by the path rules of the
/// platform the crate is built for.
pub uninterp spec fn joined(base: Seq<char>, part: Seq<char>) -> Seq<char>;

/// Calls `Path::join` and turns the result into a string; named `joined`.
#[verifier::external_body]
fn path_join(base: &str, part: &str) -> (res: String)
    ensures
        res@ == joined(base@, part@),
{
    std::path::Path::new(base).join(part).to_string_lossy().into_owned()
}

/// The file that holds a project's index: `.codemap/embeddings.bin` under its root.
pub fn cache_path(root: &str) -> (res: String)
    ensures
        res@ == joined(joined(root@, ".codemap"@), "embeddings.bin"@),
{
    let dir = path_join(root, ".codemap");
    path_join(dir.as_str(), "embeddings.bin")
}

// ---------------------------------------------------------------------------
// The index file: a header (fingerprint, row count, row length, each a little-endian
// u64), then every value of every row as the four little-endian bytes of its bits.
// ---------------------------------------------------------------------------

/// The values of all rows, row after row.
pub open spec fn flat(rows: Seq<Seq<u32>>) -> Seq<u32>
    decreases rows.len(),
{
    if rows.len() == 0 {
        Seq::empty()
    } else {
        flat(rows.drop_last()) + rows.last()
    }
}

/// The little-endian bytes of each value, in order.
pub open spec fn value_bytes(vals: Seq<u32>) -> Seq<u8> {
    Seq::new(vals.len() * 4, |k: int| spec_u32_to_le_bytes(vals[k / 4])[k % 4])
}

/// The length of the first row, which the header records as the row length.
pub open spec fn row_len(rows: Seq<Seq<u32>>) -> nat {
    if rows.len() > 0 {
        rows[0].len()
    } else {
        0
    }
}

/// The bytes of an index file for fingerprint `fp` and the given rows.
pub open spec fn index_bytes(fp: u64, rows: Seq<Seq<u32>>) -> Seq<u8> {
    spec_u64_to_le_bytes(fp) + spec_u64_to_le_bytes(rows.len() as u64) + spec_u64_to_le_bytes(
        row_len(rows) as u64,
    ) + value_bytes(flat(rows))
}

/// The u64 stored at byte `i` of `data`.
pub open spec fn u64_at(data: Seq<u8>, i: int) -> u64 {
    spec_u64_from_le_bytes(data.subrange(i, i + 8))
}

/// The u32 stored at byte `i` of `data`.
pub open spec fn u32_at(data: Seq<u8>, i: int) -> u32 {
    spec_u32_from_le_bytes(data.subrange(i, i + 4))
}

/// The rows an index file holds, when it was written for fingerprint `fp` and `n` rows
/// and its length fits its header; `None` otherwise.
pub open spec fn decoded(data: Seq<u8>, fp: u64, n: usize) -> Option<Seq<Seq<u32>>> {
    if data.len() < 24 {
        None
    } else if u64_at(data, 0) != fp || u64_at(data, 8) as usize != n {
        None
    } else {
        let dim = u64_at(data, 16) as usize;
        if data.len() - 24 != n * dim * 4 {
            None
        } else {
            Some(
                Seq::new(
                    n as nat,
                    |i: int| Seq::new(dim as nat, |j: int| u32_at(data, 24 + (i * dim + j) * 4)),
                ),
            )
        }
    }
}

/// The values of each row.
pub open spec fn row_views(rows: Seq<Vec<u32>>) -> Seq<Seq<u32>> {
    rows.map_values(|r: Vec<u32>| r@)
}

/// Appending one value appends its four bytes.
proof fn lemma_value_bytes_push(vals: Seq<u32>, x: u32)
    ensures
        value_bytes(vals.push(x)) == value_bytes(vals) + spec_u32_to_le_bytes(x),
{
    vstd::bytes::lemma_auto_spec_u32_to_from_le_bytes();
    let a = value_bytes(vals.push(x));
    let b = value_bytes(vals) + spec_u32_to_le_bytes(x);
    assert forall|k: int| 0 <= k < a.len() implies a[k] == b[k] by {
        if k < vals.len() * 4 {
            assert(k / 4 < vals.len());
        } else {
            assert(k / 4 == vals.len());
        }
    }
    assert(a =~= b);
}

/// The bytes of an index file for fingerprint `fp` and the given rows.
pub fn encode_index(fp: u64, rows: &Vec<Vec<u32>>) -> (res: Vec<u8>)
    ensures
        res@ == index_bytes(fp, row_views(rows@)),
{
    let ghost rv = row_views(rows@);
    let dim: usize = if rows.len() > 0 { rows[0].len() } else { 0 };
    let mut buf = u64_to_le_bytes(fp);
    let mut part = u64_to_le_bytes(rows.len() as u64);
    buf.append(&mut part);
    let mut part = u64_to_le_bytes(dim as u64);
    buf.append(&mut part);
    let ghost header = buf@;
    assert(header =~= spec_u64_to_le_bytes(fp) + spec_u64_to_le_bytes(rows@.len() as u64)
        + spec_u64_to_le_bytes(row_len(rv) as u64));
    let mut i: usize = 0;
    assert(flat(rv.take(0)) =~= Seq::<u32>::empty());
    assert(value_bytes(Seq::<u32>::empty()) =~= Seq::<u8>::empty());
    assert(buf@ =~= header + value_bytes(flat(rv.take(0))));
    while i < rows.len()
        invariant
            rv == row_views(rows@),
            0 <= i <= rows@.len(),
            buf@ == header + value_bytes(flat(rv.take(i as int))),
        decreases rows@.len() - i,
    {
        let row = &rows[i];
        let mut j: usize = 0;
        assert(rv[i as int] == row@);
        assert(row@.take(0) =~= Seq::<u32>::empty());
        assert(flat(rv.take(i as int)) + row@.take(0) =~= flat(rv.take(i as int)));
        while j < row.len()
            invariant
                0 <= j <= row@.len(),
                buf@ == header + value_bytes(flat(rv.take(i as int)) + row@.take(j as int)),
            decreases row@.len() - j,
        {
            let x = row[j];
            let mut b = u32_to_le_bytes(x);
            buf.append(&mut b);
            proof {
                lemma_value_bytes_push(flat(rv.take(i as int)) + row@.take(j as int), x);
                assert(flat(rv.take(i as int)) + row@.take(j + 1) =~= (flat(rv.take(i as int)) + row@.take(j as int)).push(x));
            }
            j = j + 1;
        }
        proof {
            assert(row@.take(j as int) =~= row@);
            assert(rv.take(i + 1).drop_last() =~= rv.take(i as int));
            assert(rv.take(i + 1).last() == rv[i as int]);
        }
        i = i + 1;
    }
    assert(rv.take(rows@.len() as int) =~= rv);
    buf
}

/// The rows of an index file, when it was written for fingerprint `fp` and `n` rows and
/// its length fits its header; `None` otherwise (the index is then rebuilt).
pub fn decode_index(data: &[u8], fp: u64, n: usize) -> (res: Option<Vec<Vec<u32>>>)
    ensures
        match res {
            Some(rows) => decoded(data@, fp, n) == Some(row_views(rows@)),
            None => decoded(data@, fp, n) is None,
        },
{
    if data.len() < 24 {
        return None;
    }
    let stored_fp = u64_from_le_bytes(vstd::slice::slice_subrange(data, 0, 8));
    let stored_n = u64_from_le_bytes(vstd::slice::slice_subrange(data, 8, 16));
    if stored_fp != fp || #[verifier::truncate] (stored_n as usize) != n {
        return None;
    }
    let dim = #[verifier::truncate] (u64_from_le_bytes(vstd::slice::slice_subrange(data, 16, 24)) as usize);
    let rest = data.len() - 24;
    let total = match n.checked_mul(dim) {
        Some(x) => x.checked_mul(4),
        None => None,
    };
    match total {
        Some(t) => {
            if rest != t {
                return None;
            }
        },
        None => {
            proof {
                assert(n * dim * 4 > usize::MAX) by (nonlinear_arith)
                    requires
                        n * dim > usize::MAX || n * dim * 4 > usize::MAX,
                ;
            }
            return None;
        },
    }
    let ghost want = decoded(data@, fp, n).unwrap();
    let mut out: Vec<Vec<u32>> = Vec::new();
    let mut i: usize = 0;
    while i < n
        invariant
            0 <= i <= n,
            data@.len() == 24 + n * dim * 4,
            data@.len() <= usize::MAX,
            want.len() == n,
            forall|a: int| 0 <= a < n ==> (#[trigger] want[a]).len() == dim
                && forall|b: int| 0 <= b < dim ==> #[trigger] want[a][b] == u32_at(data@, 24 + (a * dim + b) * 4),
            row_views(out@) == want.take(i as int),
        decreases n - i,
    {
        let mut row: Vec<u32> = Vec::new();
        let mut j: usize = 0;
        while j < dim
            invariant
                0 <= i < n,
                0 <= j <= dim,
                data@.len() == 24 + n * dim * 4,
                data@.len() <= usize::MAX,
                row@.len() == j,
                forall|b: int| 0 <= b < j ==> #[trigger] row@[b] == u32_at(data@, 24 + (i * dim + b) * 4),
            decreases dim - j,
        {
            proof {
                assert(i * dim + j < n * dim) by (nonlinear_arith)
                    requires
                        0 <= i < n,
                        0 <= j < dim,
                ;
                assert(i * dim <= i * dim + j);
                assert(24 + (i * dim + j) * 4 + 4 <= data@.len()) by (nonlinear_arith)
                    requires
                        i * dim + j < n * dim,
                        data@.len() == 24 + n * dim * 4,
                ;
            }
            let o = 24 + (i * dim + j) * 4;
            let x = u32_from_le_bytes(vstd::slice::slice_subrange(data, o, o + 4));
            row.push(x);
            j = j + 1;
        }
        let ghost rw = row@;
        let ghost before = out@;
        out.push(row);
        proof {
            assert(row_views(out@) =~= row_views(before).push(rw));
            assert(rw =~= want[i as int]);
            assert(row_views(out@) =~= want.take(i + 1));
        }
        i = i + 1;
    }
    assert(want.take(n as int) =~= want);
    Some(out)
}

/// Each value of a rectangular set of rows sits at its row-major place in `flat`.
proof fn lemma_flat_index(rows: Seq<Seq<u32>>, d: nat)
    requires
        forall|i: int| 0 <= i < rows.len() ==> (#[trigger] rows[i]).len() == d,
    ensures
        flat(rows).len() == rows.len() * d,
        forall|i: int, j: int| 0 <= i < rows.len() && 0 <= j < d ==> #[trigger] flat(rows)[i * d + j] == rows[i][j],
    decreases rows.len(),
{
    if rows.len() > 0 {
        let init = rows.drop_last();
        lemma_flat_index(init, d);
        assert(flat(rows) == flat(init) + rows.last());
        assert((rows.len() - 1) * d + d == rows.len() * d) by (nonlinear_arith);
        assert forall|i: int, j: int| 0 <= i < rows.len() && 0 <= j < d implies #[trigger] flat(rows)[i * d + j] == rows[i][j] by {
            if i < rows.len() - 1 {
                assert(i * d + j < (rows.len() - 1) * d) by (nonlinear_arith)
                    requires
                        0 <= i < rows.len() - 1,
                        0 <= j < d,
                ;
                assert(init[i] == rows[i]);
            } else {
                assert(i * d + j == (rows.len() - 1) * d + j) by (nonlinear_arith)
                    requires
                        i == rows.len() - 1,
                ;
            }
        }
    }
}

/// Law: reading back an index file gives back the rows that were written, when every row
/// has the length of the first and the counts fit the platform's `usize`.
pub proof fn lemma_index_roundtrip(fp: u64, rows: Seq<Seq<u32>>)
    requires
        forall|i: int| 0 <= i < rows.len() ==> (#[trigger] rows[i]).len() == row_len(rows),
        rows.len() <= usize::MAX,
        row_len(rows) <= usize::MAX,
        24 + rows.len() * row_len(rows) * 4 <= usize::MAX,
    ensures
        decoded(index_bytes(fp, rows), fp, rows.len() as usize) == Some(rows),
{
    vstd::bytes::lemma_auto_spec_u64_to_from_le_bytes();
    vstd::bytes::lemma_auto_spec_u32_to_from_le_bytes();
    let d = row_len(rows);
    let n = rows.len();
    let data = index_bytes(fp, rows);
    lemma_flat_index(rows, d);
    let vals = flat(rows);
    assert(data.subrange(0, 8) =~= spec_u64_to_le_bytes(fp));
    assert(data.subrange(8, 16) =~= spec_u64_to_le_bytes(n as u64));
    assert(data.subrange(16, 24) =~= spec_u64_to_le_bytes(d as u64));
    assert(data.len() == 24 + n * d * 4);
    let got = decoded(data, fp, n as usize).unwrap();
    assert forall|i: int| 0 <= i < n implies #[trigger] got[i] == rows[i] by {
        assert forall|j: int| 0 <= j < d implies got[i][j] == rows[i][j] by {
            let m = i * d + j;
            assert(0 <= m < n * d) by (nonlinear_arith)
                requires
                    m == i * d + j,
                    0 <= i < n,
                    0 <= j < d,
            ;
            assert(data.subrange(24 + m * 4, 24 + m * 4 + 4) =~= spec_u32_to_le_bytes(vals[m])) by {
                assert forall|k: int| 0 <= k < 4 implies data[24 + m * 4 + k] == spec_u32_to_le_bytes(vals[m])[k] by {
                    assert((m * 4 + k) / 4 == m);
                    assert((m * 4 + k) % 4 == k);
                }
            }
        }
        assert(got[i] =~= rows[i]);
    }
    assert(got =~= rows);
}

} // verus!
