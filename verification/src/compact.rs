//! The compact archive: a format byte, the entry count, a table of
//! absolute entry offsets, then every entry's encoding. The offset table
//! lets a reader jump straight to one entry — or to its title, which an
//! entry's encoding starts with — without decoding the rest.

use vstd::prelude::*;
use crate::model::{Doc, DocV, Docs};
use crate::codec::{
    at, dec_doc, dec_entries, dec_str, dec_u64, dec_u8, enc_doc, enc_entries, enc_meta,
    enc_meta_head, enc_meta_tail, enc_opt_bool, enc_opt_content, enc_opt_paths, enc_opt_primop,
    enc_path, enc_str, enc_u64, enc_u8, lemma_at_skip, lemma_concat_assoc, lemma_enc_entries_len,
    lemma_enc_entries_push, lemma_enc_entries_split, lemma_prefix_split, lemma_prefix_subrange,
    lemma_subrange_prefix, meta_head_of, meta_tail_of, push_doc, push_u64, push_u8, FormatError,
};

verus! {

/// Where entry `i`'s encoding starts in the compact archive.
pub open spec fn entry_off(ds: Seq<DocV>, i: int) -> int {
    9 + 8 * (ds.len() as int) + enc_entries(ds.take(i)).len()
}

/// The offset table for the first `j` entries.
pub open spec fn enc_table(ds: Seq<DocV>, j: int) -> Seq<u8>
    decreases j,
{
    if j <= 0 {
        Seq::empty()
    } else {
        enc_table(ds, j - 1) + enc_u64(entry_off(ds, j - 1) as u64)
    }
}

pub open spec fn enc_compact(ds: Seq<DocV>) -> Seq<u8> {
    enc_u8(2u8) + (enc_u64(ds.len() as u64) + (enc_table(ds, ds.len() as int) + enc_entries(ds)))
}

/// The trust boundary of the unchecked view: the buffer is, in full, the
/// compact encoding of some corpus.
pub open spec fn is_compact_archive(b: Seq<u8>) -> bool {
    exists|ds: Seq<DocV>| b == enc_compact(ds)
}

proof fn lemma_table_len(ds: Seq<DocV>, j: int)
    requires
        j >= 0,
    ensures
        enc_table(ds, j).len() == 8 * j,
    decreases j,
{
    if j > 0 {
        lemma_table_len(ds, j - 1);
    }
}

proof fn lemma_table_block(ds: Seq<DocV>, j: int, i: int)
    requires
        0 <= i < j,
    ensures
        enc_table(ds, j).subrange(8 * i, 8 * i + 8) == enc_u64(entry_off(ds, i) as u64),
    decreases j,
{
    lemma_table_len(ds, j - 1);
    lemma_table_len(ds, j);
    if i == j - 1 {
        assert(enc_table(ds, j).subrange(8 * i, 8 * i + 8) =~= enc_u64(entry_off(ds, i) as u64));
    } else {
        lemma_table_block(ds, j - 1, i);
        assert(enc_table(ds, j).subrange(8 * i, 8 * i + 8) =~= enc_table(ds, j - 1).subrange(
            8 * i,
            8 * i + 8,
        ));
    }
}

/// Everything a reader of a compact archive needs: the lengths add up,
/// the count sits at offset 1, the table blocks hold the entry offsets,
/// and each entry's encoding sits at its offset.
proof fn lemma_compact_facts(b: Seq<u8>, ds: Seq<DocV>)
    requires
        b == enc_compact(ds),
        b.len() <= 0xffff_ffff_ffff_ffff,
    ensures
        b.len() == 9 + 8 * (ds.len() as int) + enc_entries(ds).len(),
        ds.len() <= b.len(),
        enc_u64(ds.len() as u64).is_prefix_of(at(b, 1)),
        enc_entries(ds).is_prefix_of(at(b, 9 + 8 * (ds.len() as int))),
        forall|i: int|
            #![trigger entry_off(ds, i)]
            0 <= i < ds.len() ==> 9 + 8 * i + 8 <= b.len() && enc_u64(
                entry_off(ds, i) as u64,
            ).is_prefix_of(at(b, 9 + 8 * i)) && 9 + 8 * (ds.len() as int) <= entry_off(ds, i) && entry_off(
                ds,
                i,
            ) + enc_doc(ds[i]).len() <= b.len() && enc_doc(ds[i]).is_prefix_of(
                at(b, entry_off(ds, i)),
            ),
{
    lemma_table_len(ds, ds.len() as int);
    lemma_enc_entries_len(ds);
    assert(at(b, 0) =~= b);
    assert(enc_compact(ds).is_prefix_of(at(b, 0)));
    let tail1 = enc_u64(ds.len() as u64) + (enc_table(ds, ds.len() as int) + enc_entries(ds));
    lemma_prefix_split(enc_u8(2u8), tail1, at(b, 0));
    lemma_at_skip(b, 0, 1);
    let tail2 = enc_table(ds, ds.len() as int) + enc_entries(ds);
    lemma_prefix_split(enc_u64(ds.len() as u64), tail2, at(b, 1));
    lemma_at_skip(b, 1, 8);
    lemma_prefix_split(enc_table(ds, ds.len() as int), enc_entries(ds), at(b, 9));
    lemma_at_skip(b, 9, 8 * (ds.len() as int));
    lemma_prefix_subrange(enc_table(ds, ds.len() as int), b, 9);
    assert forall|i: int|
        #![trigger entry_off(ds, i)]
        0 <= i < ds.len() implies 9 + 8 * i + 8 <= b.len() && enc_u64(
        entry_off(ds, i) as u64,
    ).is_prefix_of(at(b, 9 + 8 * i)) && 9 + 8 * (ds.len() as int) <= entry_off(ds, i) && entry_off(ds, i)
        + enc_doc(ds[i]).len() <= b.len() && enc_doc(ds[i]).is_prefix_of(
        at(b, entry_off(ds, i)),
    ) by {
        lemma_table_block(ds, ds.len() as int, i);
        assert(b.subrange(9 + 8 * i, 9 + 8 * i + 8) =~= enc_table(ds, ds.len() as int).subrange(
            8 * i,
            8 * i + 8,
        ));
        lemma_subrange_prefix(enc_u64(entry_off(ds, i) as u64), b, 9 + 8 * i);
        lemma_enc_entries_split(ds, i);
        lemma_prefix_split(
            enc_entries(ds.take(i)),
            enc_entries(ds.skip(i)),
            at(b, 9 + 8 * (ds.len() as int)),
        );
        lemma_at_skip(b, 9 + 8 * (ds.len() as int), enc_entries(ds.take(i)).len() as int);
        let rest = ds.skip(i);
        assert(rest.len() > 0);
        assert(rest[0] == ds[i]);
        lemma_prefix_split(
            enc_doc(rest[0]),
            enc_entries(rest.drop_first()),
            at(b, entry_off(ds, i)),
        );
        lemma_prefix_subrange(enc_doc(ds[i]), b, entry_off(ds, i));
    }
}

/// Encodes a corpus in the compact format. Fails only when the archive
/// would not fit 64-bit offsets.
pub fn encode_compact(docs: &Docs) -> (r: Result<Vec<u8>, FormatError>)
    ensures
        r matches Ok(b) ==> b@ == enc_compact(docs.deep_view()),
        r is Err ==> 9 + 8 * docs.deep_view().len() + enc_entries(docs.deep_view()).len()
            > u64::MAX,
{
    let ghost d = docs.deep_view();
    let n = docs.0.len();
    let mut tmp: Vec<u8> = Vec::new();
    let mut rel: Vec<u64> = Vec::new();
    let mut i: usize = 0;
    proof {
        assert(d.take(0) =~= Seq::<DocV>::empty());
        assert(tmp@ =~= enc_entries(d.take(0)));
    }
    while i < n
        invariant
            n == docs.0@.len(),
            d == docs.deep_view(),
            i <= n,
            tmp@ == enc_entries(d.take(i as int)),
            rel@.len() == i as nat,
            forall|j: int|
                0 <= j < i ==> (#[trigger] rel@[j]) as int == enc_entries(d.take(j)).len()
                    && rel@[j] <= tmp@.len(),
        decreases n - i,
    {
        rel.push(tmp.len() as u64);
        push_doc(&mut tmp, &docs.0[i]);
        proof {
            assert(d.take(i + 1) =~= d.take(i as int).push(d[i as int]));
            lemma_enc_entries_push(d.take(i as int), d[i as int]);
            assert(d[i as int] == docs.0@[i as int].deep_view());
            assert(tmp@ =~= enc_entries(d.take(i + 1)));
        }
        i = i + 1;
    }
    proof {
        assert(d.take(n as int) =~= d);
    }
    let total: u128 = 9u128 + 8u128 * (n as u128) + (tmp.len() as u128);
    if total > (u64::MAX as u128) {
        return Err(FormatError);
    }
    let base: u64 = 9u64 + 8u64 * (n as u64);
    let mut out: Vec<u8> = Vec::new();
    push_u8(&mut out, 2);
    push_u64(&mut out, n as u64);
    let mut j: usize = 0;
    proof {
        assert(out@ =~= Seq::<u8>::empty() + enc_u8(2u8) + enc_u64(n as u64) + enc_table(d, 0));
    }
    while j < n
        invariant
            n == docs.0@.len(),
            d == docs.deep_view(),
            rel@.len() == n as nat,
            tmp@ == enc_entries(d),
            forall|l: int|
                0 <= l < n ==> (#[trigger] rel@[l]) as int == enc_entries(d.take(l)).len()
                    && rel@[l] <= tmp@.len(),
            j <= n,
            base == 9 + 8 * (n as int),
            9 + 8 * (n as int) + tmp@.len() <= u64::MAX,
            out@ == Seq::<u8>::empty() + enc_u8(2u8) + enc_u64(n as u64) + enc_table(d, j as int),
        decreases n - j,
    {
        let off: u64 = base + rel[j];
        push_u64(&mut out, off);
        proof {
            assert(entry_off(d, j as int) == base + rel@[j as int]);
            assert(out@ =~= Seq::<u8>::empty() + enc_u8(2u8) + enc_u64(n as u64) + enc_table(
                d,
                j + 1,
            ));
        }
        j = j + 1;
    }
    let mut k: usize = 0;
    let m = tmp.len();
    while k < m
        invariant
            m == tmp@.len(),
            k <= m,
            n == docs.0@.len(),
            d == docs.deep_view(),
            tmp@ == enc_entries(d),
            out@ == Seq::<u8>::empty() + enc_u8(2u8) + enc_u64(n as u64) + enc_table(d, n as int)
                + tmp@.take(k as int),
        decreases m - k,
    {
        let b = tmp[k];
        out.push(b);
        proof {
            assert(out@ =~= Seq::<u8>::empty() + enc_u8(2u8) + enc_u64(n as u64) + enc_table(
                d,
                n as int,
            ) + tmp@.take(k + 1));
        }
        k = k + 1;
    }
    proof {
        assert(tmp@.take(m as int) =~= tmp@);
        lemma_concat_assoc(
            Seq::<u8>::empty() + enc_u8(2u8) + enc_u64(n as u64),
            enc_table(d, n as int),
            enc_entries(d),
        );
        lemma_concat_assoc(
            Seq::<u8>::empty() + enc_u8(2u8),
            enc_u64(n as u64),
            enc_table(d, n as int) + enc_entries(d),
        );
        lemma_concat_assoc(
            Seq::<u8>::empty(),
            enc_u8(2u8),
            enc_u64(n as u64) + (enc_table(d, n as int) + enc_entries(d)),
        );
        assert(Seq::<u8>::empty() + enc_compact(d) =~= enc_compact(d));
        assert(out@ == enc_compact(d));
    }
    Ok(out)
}

fn bytes_eq(a: &Vec<u8>, b: &Vec<u8>) -> (r: bool)
    ensures
        r <==> a@ == b@,
{
    let n = a.len();
    if n != b.len() {
        proof {
            assert(a@.len() != b@.len());
        }
        return false;
    }
    let mut i: usize = 0;
    while i < n
        invariant
            n == a@.len(),
            n == b@.len(),
            i <= n,
            forall|l: int| 0 <= l < i ==> a@[l] == b@[l],
        decreases n - i,
    {
        if a[i] != b[i] {
            return false;
        }
        i = i + 1;
    }
    proof {
        assert(a@ =~= b@);
    }
    true
}

/// A read-only projection over a compact archive buffer. Fields are read
/// straight out of the buffer on demand; nothing is decoded up front.
pub struct CompactView {
    bytes: Vec<u8>,
    docs: Ghost<Seq<DocV>>,
}

impl CompactView {
    /// The buffer is, in full, the compact encoding of the corpus this
    /// view stands for.
    pub closed spec fn wf(self) -> bool {
        self.bytes@ == enc_compact(self.docs@) && self.bytes@.len() <= usize::MAX
    }

    /// The corpus this view projects.
    pub closed spec fn entries(self) -> Seq<DocV> {
        self.docs@
    }

    /// Checked construction: validates that the whole buffer is a compact
    /// archive before exposing the view; any other buffer is refused with
    /// a FormatError.
    pub fn decode_compact_view(bytes: Vec<u8>) -> (r: Result<CompactView, FormatError>)
        ensures
            r matches Ok(v) ==> v.wf() && bytes@ == enc_compact(v.entries()),
            forall|ds: Seq<DocV>| #[trigger] enc_compact(ds) == bytes@ ==> (r matches Ok(v)
                && v.entries() == ds),
    {
        let blen = bytes.len();
        proof {
            assert forall|ds: Seq<DocV>| #[trigger] enc_compact(ds) == bytes@ implies (bytes@.len()
                == 9 + 8 * (ds.len() as int) + enc_entries(ds).len() && ds.len() <= bytes@.len() && enc_u8(
                2u8,
            ).is_prefix_of(at(bytes@, 0)) && enc_u64(ds.len() as u64).is_prefix_of(at(bytes@, 1))
                && enc_entries(ds).is_prefix_of(at(bytes@, 9 + 8 * (ds.len() as int)))) by {
                lemma_compact_facts(bytes@, ds);
                assert(at(bytes@, 0) =~= bytes@);
                assert(enc_compact(ds).is_prefix_of(at(bytes@, 0)));
                lemma_prefix_split(
                    enc_u8(2u8),
                    enc_u64(ds.len() as u64) + (enc_table(ds, ds.len() as int) + enc_entries(ds)),
                    at(bytes@, 0),
                );
            }
        }
        match dec_u8(&bytes, 0) {
            None => Err(FormatError),
            Some((magic, _)) => {
                if magic != 2 {
                    return Err(FormatError);
                }
                match dec_u64(&bytes, 1) {
                    None => Err(FormatError),
                    Some((cnt, _)) => {
                        if blen < 9 {
                            return Err(FormatError);
                        }
                        if cnt > ((blen - 9) / 8) as u64 {
                            return Err(FormatError);
                        }
                        let n = cnt as usize;
                        let tpos = 9 + 8 * n;
                        match dec_entries(&bytes, tpos, cnt) {
                            None => Err(FormatError),
                            Some((entries, pend)) => {
                                if pend != blen {
                                    return Err(FormatError);
                                }
                                let docs2 = Docs(entries);
                                match encode_compact(&docs2) {
                                    Err(e) => {
                                        proof {
                                            assert(false);
                                        }
                                        Err(e)
                                    },
                                    Ok(reenc) => {
                                        if bytes_eq(&reenc, &bytes) {
                                            let v = CompactView {
                                                bytes,
                                                docs: Ghost(docs2.deep_view()),
                                            };
                                            Ok(v)
                                        } else {
                                            Err(FormatError)
                                        }
                                    },
                                }
                            },
                        }
                    },
                }
            },
        }
    }

    /// Unchecked construction: the caller guarantees the buffer came from
    /// the paired compact encoder. Nothing is validated or decoded.
    pub fn view_trusted(bytes: Vec<u8>) -> (r: CompactView)
        requires
            is_compact_archive(bytes@),
        ensures
            r.wf(),
            bytes@ == enc_compact(r.entries()),
    {
        let blen = bytes.len();
        let ghost ds = choose|ds: Seq<DocV>| bytes@ == enc_compact(ds);
        CompactView { bytes, docs: Ghost(ds) }
    }

    /// The number of entries, read from the archive header.
    pub fn len(&self) -> (r: usize)
        requires
            self.wf(),
        ensures
            r == self.entries().len(),
    {
        proof {
            lemma_compact_facts(self.bytes@, self.docs@);
        }
        match dec_u64(&self.bytes, 1) {
            Some((cnt, _)) => cnt as usize,
            None => {
                proof {
                    assert(false);
                }
                0
            },
        }
    }

    /// Entry `i`'s title, read through the offset table without decoding
    /// any other field or entry.
    pub fn title_at(&self, i: usize) -> (r: String)
        requires
            self.wf(),
            i < self.entries().len(),
        ensures
            r@ == self.entries()[i as int].meta.title,
    {
        proof {
            lemma_compact_facts(self.bytes@, self.docs@);
            assert(entry_off(self.docs@, i as int) >= 0);
        }
        let tpos = 9 + 8 * i;
        match dec_u64(&self.bytes, tpos) {
            Some((off, _)) => {
                let op = off as usize;
                proof {
                    let ds = self.docs@;
                    let d = ds[i as int];
                    let b = self.bytes@;
                    lemma_prefix_split(
                        enc_meta(d.meta),
                        enc_opt_content(d.content),
                        at(b, op as int),
                    );
                    lemma_prefix_split(
                        enc_meta_head(meta_head_of(d.meta)),
                        enc_meta_tail(meta_tail_of(d.meta)),
                        at(b, op as int),
                    );
                    let h = meta_head_of(d.meta);
                    lemma_prefix_split(
                        enc_str(h.0),
                        enc_path(h.1) + (enc_opt_paths(h.2) + (enc_opt_bool(h.3) + (enc_opt_bool(
                            h.4,
                        ) + (enc_opt_primop(h.5))))),
                        at(b, op as int),
                    );
                }
                match dec_str(&self.bytes, op) {
                    Some((s, _)) => s,
                    None => {
                        proof {
                            assert(false);
                        }
                        String::new()
                    },
                }
            },
            None => {
                proof {
                    assert(false);
                }
                String::new()
            },
        }
    }

    /// Entry `i` as an owned value, decoded from its offset alone.
    pub fn doc_at(&self, i: usize) -> (r: Option<Doc>)
        requires
            self.wf(),
            i < self.entries().len(),
        ensures
            r matches Some(d) && d.deep_view() == self.entries()[i as int],
    {
        proof {
            lemma_compact_facts(self.bytes@, self.docs@);
            assert(entry_off(self.docs@, i as int) >= 0);
        }
        let tpos = 9 + 8 * i;
        match dec_u64(&self.bytes, tpos) {
            Some((off, _)) => {
                let op = off as usize;
                match dec_doc(&self.bytes, op) {
                    Some((d, _)) => Some(d),
                    None => {
                        proof {
                            assert(false);
                        }
                        None
                    },
                }
            },
            None => {
                proof {
                    assert(false);
                }
                None
            },
        }
    }

    /// The whole corpus as an owned value: a deep copy of every entry,
    /// for callers that must outlive the buffer or re-encode portably.
    pub fn materialize(&self) -> (r: Docs)
        requires
            self.wf(),
        ensures
            r.deep_view() == self.entries(),
    {
        proof {
            lemma_compact_facts(self.bytes@, self.docs@);
        }
        let n = self.len();
        let tpos = 9 + 8 * n;
        match dec_entries(&self.bytes, tpos, n as u64) {
            Some((v, _)) => Docs(v),
            None => {
                proof {
                    assert(false);
                }
                Docs(Vec::new())
            },
        }
    }
}

} // verus!
