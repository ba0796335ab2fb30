//! The block store: content-addressed, deduplicating, integrity-checked
//! storage of opaque byte content.

use vstd::prelude::*;
use crate::bytes::bytes_eq;
use crate::error::Error;
use crate::hashing::{block_hash, hash_of};
use crate::index::{Address, AddressV, addrs_view};
use crate::report::Report;

verus! {

/// Splitting threshold: a stored stream is cut into chunks of at most
/// this many bytes, each stored as one block.
pub const MAX_BLOCK_SIZE: usize = 1048576;

/// The deduplicating block store: each distinct content hash holds one
/// immutable block, named by the hash of its content.
#[derive(Debug)]
pub struct BlockDir {
    blocks: Vec<(Vec<u8>, Vec<u8>)>,
}

/// First block stored under a name, if any.
pub open spec fn bd_lookup(blocks: Seq<(Seq<u8>, Seq<u8>)>, name: Seq<u8>) -> Option<Seq<u8>>
    decreases blocks.len(),
{
    if blocks.len() == 0 {
        None
    } else if blocks[0].0 == name {
        Some(blocks[0].1)
    } else {
        bd_lookup(blocks.skip(1), name)
    }
}

/// The chunks a stream is cut into: full-size chunks, then the remainder;
/// an empty stream has no chunks at all.
pub open spec fn chunks_of(s: Seq<u8>) -> Seq<Seq<u8>>
    decreases s.len(),
{
    if s.len() == 0 {
        Seq::empty()
    } else if s.len() <= MAX_BLOCK_SIZE {
        seq![s]
    } else {
        seq![s.take(MAX_BLOCK_SIZE as int)] + chunks_of(s.skip(MAX_BLOCK_SIZE as int))
    }
}

/// Concatenation of a sequence of byte strings.
pub open spec fn concat_of(cs: Seq<Seq<u8>>) -> Seq<u8>
    decreases cs.len(),
{
    if cs.len() == 0 {
        Seq::empty()
    } else {
        cs[0] + concat_of(cs.skip(1))
    }
}

/// A stream is exactly the concatenation of its chunks.
pub proof fn lemma_chunks_concat(s: Seq<u8>)
    ensures
        concat_of(chunks_of(s)) == s,
    decreases s.len(),
{
    if s.len() == 0 {
        assert(concat_of(chunks_of(s)) =~= s);
    } else if s.len() <= MAX_BLOCK_SIZE {
        assert(chunks_of(s) == seq![s]);
        assert(chunks_of(s).skip(1) =~= Seq::<Seq<u8>>::empty());
        assert(concat_of(Seq::<Seq<u8>>::empty()) == Seq::<u8>::empty());
        assert(concat_of(chunks_of(s).skip(1)) == Seq::<u8>::empty());
        assert(chunks_of(s)[0] == s);
        assert(s + Seq::<u8>::empty() =~= s);
    } else {
        let head = s.take(MAX_BLOCK_SIZE as int);
        let tail = s.skip(MAX_BLOCK_SIZE as int);
        lemma_chunks_concat(tail);
        assert(chunks_of(s)[0] == head);
        assert(chunks_of(s).skip(1) =~= chunks_of(tail));
        assert(head + tail =~= s);
    }
}

/// What reading a list of addresses yields: each address must name a
/// stored block whose content matches its hash, and the addressed ranges
/// are concatenated in order.
pub open spec fn read_spec(blocks: Seq<(Seq<u8>, Seq<u8>)>, addrs: Seq<AddressV>) -> Option<Seq<u8>>
    decreases addrs.len(),
{
    if addrs.len() == 0 {
        Some(Seq::empty())
    } else {
        match bd_lookup(blocks, addrs[0].hash) {
            None => None,
            Some(c) => if hash_of(c) == addrs[0].hash && addrs[0].start + addrs[0].len <= c.len() {
                match read_spec(blocks, addrs.skip(1)) {
                    None => None,
                    Some(rest) => Some(
                        c.subrange(
                            addrs[0].start as int,
                            addrs[0].start + addrs[0].len,
                        ) + rest,
                    ),
                }
            } else {
                None
            },
        }
    }
}

/// Number of stored blocks whose content no longer matches their name.
pub open spec fn corrupt_count(blocks: Seq<(Seq<u8>, Seq<u8>)>) -> int
    decreases blocks.len(),
{
    if blocks.len() == 0 {
        0
    } else {
        corrupt_count(blocks.drop_last()) + (if hash_of(blocks.last().1) == blocks.last().0 {
            0int
        } else {
            1int
        })
    }
}

/// Looking a name up in a store extended by one block finds what was
/// there before, or the new block if the name was new.
#[verifier::spinoff_prover]
#[verifier::rlimit(100)]
pub proof fn lemma_bd_push(blocks: Seq<(Seq<u8>, Seq<u8>)>, h: Seq<u8>, c: Seq<u8>, name: Seq<u8>)
    ensures
        bd_lookup(blocks.push((h, c)), name) == (match bd_lookup(blocks, name) {
            Some(x) => Some(x),
            None => if name == h {
                Some(c)
            } else {
                None
            },
        }),
    decreases blocks.len(),
{
    if blocks.len() == 0 {
        assert(blocks.push((h, c))[0] == (h, c));
        assert(blocks.push((h, c)).skip(1) =~= Seq::<(Seq<u8>, Seq<u8>)>::empty());
        assert(bd_lookup(Seq::<(Seq<u8>, Seq<u8>)>::empty(), name) is None);
        assert(bd_lookup(blocks, name) is None);
        if name == h {
            assert(bd_lookup(blocks.push((h, c)), name) == Some(c));
        } else {
            assert(bd_lookup(blocks.push((h, c)), name) == bd_lookup(
                blocks.push((h, c)).skip(1),
                name,
            ));
        }
    } else {
        assert(blocks.push((h, c))[0] == blocks[0]);
        assert(blocks.push((h, c)).skip(1) =~= blocks.skip(1).push((h, c)));
        lemma_bd_push(blocks.skip(1), h, c, name);
    }
}

/// Addresses that each name a stored block holding exactly one chunk read
/// back as the concatenation of the chunks.
pub proof fn lemma_read_chunks(
    blocks: Seq<(Seq<u8>, Seq<u8>)>,
    addrs: Seq<AddressV>,
    cs: Seq<Seq<u8>>,
)
    requires
        addrs.len() == cs.len(),
        forall|i: int|
            0 <= i < cs.len() ==> {
                let a = #[trigger] addrs[i];
                a.hash == hash_of(cs[i]) && a.start == 0 && a.len == cs[i].len() && bd_lookup(
                    blocks,
                    a.hash,
                ) == Some(cs[i])
            },
    ensures
        read_spec(blocks, addrs) == Some(concat_of(cs)),
    decreases addrs.len(),
{
    if addrs.len() == 0 {
        assert(concat_of(cs) =~= Seq::<u8>::empty());
    } else {
        assert(addrs[0].hash == hash_of(cs[0]));
        assert forall|i: int| 0 <= i < cs.skip(1).len() implies {
            let a = #[trigger] addrs.skip(1)[i];
            a.hash == hash_of(cs.skip(1)[i]) && a.start == 0 && a.len == cs.skip(1)[i].len()
                && bd_lookup(blocks, a.hash) == Some(cs.skip(1)[i])
        } by {
            assert(addrs.skip(1)[i] == addrs[i + 1]);
            assert(cs.skip(1)[i] == cs[i + 1]);
        }
        lemma_read_chunks(blocks, addrs.skip(1), cs.skip(1));
        let c = cs[0];
        assert(c.subrange(0, c.len() as int) =~= c);
        assert(concat_of(cs) == cs[0] + concat_of(cs.skip(1)));
    }
}

/// The store after processing chunks left to right: each chunk is added
/// under its hash unless a block with that hash already exists.
pub open spec fn store_blocks(bd: Seq<(Seq<u8>, Seq<u8>)>, cs: Seq<Seq<u8>>) -> Seq<
    (Seq<u8>, Seq<u8>),
>
    decreases cs.len(),
{
    if cs.len() == 0 {
        bd
    } else {
        let mid = store_blocks(bd, cs.drop_last());
        if bd_lookup(mid, hash_of(cs.last())) is Some {
            mid
        } else {
            mid.push((hash_of(cs.last()), cs.last()))
        }
    }
}

/// How many of the chunks are written: those whose hash was still absent
/// when their turn came.
pub open spec fn store_writes(bd: Seq<(Seq<u8>, Seq<u8>)>, cs: Seq<Seq<u8>>) -> int
    decreases cs.len(),
{
    if cs.len() == 0 {
        0
    } else {
        store_writes(bd, cs.drop_last()) + (if bd_lookup(
            store_blocks(bd, cs.drop_last()),
            hash_of(cs.last()),
        ) is Some {
            0int
        } else {
            1int
        })
    }
}

/// A store never un-writes a block.
pub proof fn lemma_store_writes_nonneg(bd: Seq<(Seq<u8>, Seq<u8>)>, cs: Seq<Seq<u8>>)
    ensures
        store_writes(bd, cs) >= 0,
    decreases cs.len(),
{
    if cs.len() > 0 {
        lemma_store_writes_nonneg(bd, cs.drop_last());
    }
}

/// What a fold-stored block holds: the old lookup, or one of the chunks.
pub proof fn lemma_store_blocks_lookup(bd: Seq<(Seq<u8>, Seq<u8>)>, cs: Seq<Seq<u8>>, h: Seq<u8>)
    ensures
        bd_lookup(bd, h) is Some ==> bd_lookup(store_blocks(bd, cs), h) == bd_lookup(bd, h),
        bd_lookup(store_blocks(bd, cs), h) != bd_lookup(bd, h) ==> exists|k: int|
            0 <= k < cs.len() && h == hash_of(#[trigger] cs[k]) && bd_lookup(
                store_blocks(bd, cs),
                h,
            ) == Some(cs[k]),
    decreases cs.len(),
{
    if cs.len() > 0 {
        lemma_store_blocks_lookup(bd, cs.drop_last(), h);
        let mid = store_blocks(bd, cs.drop_last());
        if bd_lookup(mid, hash_of(cs.last())) is Some {
        } else {
            lemma_bd_push(mid, hash_of(cs.last()), cs.last(), h);
            if bd_lookup(store_blocks(bd, cs), h) != bd_lookup(bd, h) {
                if bd_lookup(mid, h) != bd_lookup(bd, h) {
                    let k = choose|k: int|
                        0 <= k < cs.drop_last().len() && h == hash_of(
                            #[trigger] cs.drop_last()[k],
                        ) && bd_lookup(mid, h) == Some(cs.drop_last()[k]);
                    assert(cs.drop_last()[k] == cs[k]);
                    if h == hash_of(cs.last()) && bd_lookup(mid, h) is None {
                        assert(bd_lookup(store_blocks(bd, cs), h) == Some(cs.last()));
                        assert(cs[cs.len() - 1] == cs.last());
                    } else {
                        assert(bd_lookup(store_blocks(bd, cs), h) == bd_lookup(mid, h));
                    }
                } else {
                    assert(h == hash_of(cs.last()));
                    assert(bd_lookup(store_blocks(bd, cs), h) == Some(cs.last()));
                    assert(cs[cs.len() - 1] == cs.last());
                }
            }
        }
    }
}

/// After a fold, every chunk's hash is stored.
pub proof fn lemma_store_blocks_present(bd: Seq<(Seq<u8>, Seq<u8>)>, cs: Seq<Seq<u8>>)
    ensures
        forall|k: int|
            0 <= k < cs.len() ==> bd_lookup(store_blocks(bd, cs), hash_of(#[trigger] cs[k])) is Some,
    decreases cs.len(),
{
    if cs.len() > 0 {
        lemma_store_blocks_present(bd, cs.drop_last());
        let mid = store_blocks(bd, cs.drop_last());
        assert forall|k: int|
            0 <= k < cs.len() implies bd_lookup(
            store_blocks(bd, cs),
            hash_of(#[trigger] cs[k]),
        ) is Some by {
            if k < cs.len() - 1 {
                assert(cs.drop_last()[k] == cs[k]);
                assert(bd_lookup(mid, hash_of(cs[k])) is Some);
                if bd_lookup(mid, hash_of(cs.last())) is Some {
                } else {
                    lemma_bd_push(mid, hash_of(cs.last()), cs.last(), hash_of(cs[k]));
                }
            } else {
                assert(cs[k] == cs.last());
                if bd_lookup(mid, hash_of(cs.last())) is Some {
                } else {
                    lemma_bd_push(mid, hash_of(cs.last()), cs.last(), hash_of(cs.last()));
                }
            }
        }
    }
}

/// If every chunk's hash is already stored, the fold changes nothing.
pub proof fn lemma_store_blocks_all_present(bd: Seq<(Seq<u8>, Seq<u8>)>, cs: Seq<Seq<u8>>)
    requires
        forall|k: int| 0 <= k < cs.len() ==> bd_lookup(bd, hash_of(#[trigger] cs[k])) is Some,
    ensures
        store_blocks(bd, cs) == bd,
        store_writes(bd, cs) == 0,
    decreases cs.len(),
{
    if cs.len() > 0 {
        assert forall|k: int|
            0 <= k < cs.drop_last().len() implies bd_lookup(
            bd,
            hash_of(#[trigger] cs.drop_last()[k]),
        ) is Some by {
            assert(cs.drop_last()[k] == cs[k]);
        }
        lemma_store_blocks_all_present(bd, cs.drop_last());
        assert(cs[cs.len() - 1] == cs.last());
        assert(bd_lookup(bd, hash_of(cs.last())) is Some);
    }
}

/// Every chunk of the stream already has a block under its hash.
pub open spec fn all_chunks_present(bd: Seq<(Seq<u8>, Seq<u8>)>, s: Seq<u8>) -> bool {
    forall|i: int|
        0 <= i < chunks_of(s).len() ==> bd_lookup(bd, hash_of(#[trigger] chunks_of(s)[i])) is Some
}

/// No stored block, and no pair of this stream's own chunks, collides on
/// a hash: the premise under which content addressing is faithful.
pub open spec fn store_clean(bd: Seq<(Seq<u8>, Seq<u8>)>, s: Seq<u8>) -> bool {
    &&& (forall|i: int|
        0 <= i < chunks_of(s).len() ==> match bd_lookup(bd, hash_of(#[trigger] chunks_of(s)[i])) {
            Some(c) => c == chunks_of(s)[i],
            None => true,
        })
    &&& (forall|i: int, j: int|
        #![trigger chunks_of(s)[i], chunks_of(s)[j]]
        0 <= i < chunks_of(s).len() && 0 <= j < chunks_of(s).len() && hash_of(chunks_of(s)[i])
            == hash_of(chunks_of(s)[j]) ==> chunks_of(s)[i] == chunks_of(s)[j])
}

impl BlockDir {
    /// The stored blocks, in storage order, as name/content pairs.
    pub closed spec fn blocks_view(&self) -> Seq<(Seq<u8>, Seq<u8>)> {
        self.blocks@.map_values(|p: (Vec<u8>, Vec<u8>)| (p.0@, p.1@))
    }

    /// Content stored under a hash name, if any.
    pub open spec fn lookup(&self, name: Seq<u8>) -> Option<Seq<u8>> {
        bd_lookup(self.blocks_view(), name)
    }

    /// A fresh, empty block store.
    pub fn new() -> (r: BlockDir)
        ensures
            r.blocks_view() == Seq::<(Seq<u8>, Seq<u8>)>::empty(),
    {
        let r = BlockDir { blocks: Vec::new() };
        proof {
            assert(r.blocks_view() =~= Seq::<(Seq<u8>, Seq<u8>)>::empty());
        }
        r
    }

    /// Assemble a store from loaded name/content pairs.
    pub fn from_pairs(pairs: Vec<(Vec<u8>, Vec<u8>)>) -> (r: BlockDir)
        ensures
            r.blocks_view() == pairs@.map_values(|p: (Vec<u8>, Vec<u8>)| (p.0@, p.1@)),
    {
        BlockDir { blocks: pairs }
    }

    /// The stored name/content pairs, for the storage layer to persist.
    pub fn pairs(&self) -> (r: &Vec<(Vec<u8>, Vec<u8>)>)
        ensures
            r@.map_values(|p: (Vec<u8>, Vec<u8>)| (p.0@, p.1@)) == self.blocks_view(),
    {
        &self.blocks
    }

    /// Find the position of a stored block by name.
    fn find(&self, name: &Vec<u8>) -> (r: Option<usize>)
        ensures
            match r {
                Some(i) => i < self.blocks@.len() && self.blocks@[i as int].0@ == name@
                    && self.lookup(name@) == Some(self.blocks@[i as int].1@),
                None => self.lookup(name@) is None,
            },
    {
        let mut i: usize = 0;
        proof {
            assert(self.blocks_view().skip(0) =~= self.blocks_view());
        }
        loop
            invariant
                i <= self.blocks.len(),
                bd_lookup(self.blocks_view().skip(i as int), name@) == self.lookup(name@),
            decreases self.blocks.len() - i,
        {
            if i == self.blocks.len() {
                proof {
                    assert(self.blocks_view().skip(i as int) =~= Seq::<(Seq<u8>, Seq<u8>)>::empty());
                }
                return None;
            }
            proof {
                assert(self.blocks_view().skip(i as int)[0] == (
                    self.blocks@[i as int].0@,
                    self.blocks@[i as int].1@,
                ));
            }
            if bytes_eq(&self.blocks[i].0, name) {
                return Some(i);
            }
            proof {
                assert(self.blocks_view().skip(i as int).skip(1) =~= self.blocks_view().skip(
                    i + 1 as int,
                ));
            }
            i = i + 1;
        }
    }

    /// Does the store hold a block with this name?
    pub fn contains(&self, name: &Vec<u8>) -> (r: bool)
        ensures
            r == (self.lookup(name@) is Some),
    {
        match self.find(name) {
            Some(_) => true,
            None => false,
        }
    }

    /// Names of all stored blocks, in storage order.
    pub fn blocks(&self) -> (r: Vec<Vec<u8>>)
        ensures
            r@.len() == self.blocks_view().len(),
            forall|i: int| 0 <= i < r@.len() ==> r@[i]@ == self.blocks_view()[i].0,
    {
        let mut r: Vec<Vec<u8>> = Vec::new();
        let mut i: usize = 0;
        while i < self.blocks.len()
            invariant
                i <= self.blocks.len(),
                r@.len() == i,
                forall|j: int| 0 <= j < i ==> r@[j]@ == self.blocks_view()[j].0,
            decreases self.blocks.len() - i,
        {
            r.push(self.blocks[i].0.clone());
            i = i + 1;
        }
        r
    }

    /// Store a stream: split it into chunks, write each novel chunk as a
    /// block, and return the chunk addresses and the whole-stream hash.
    ///
    /// A block whose hash is already present is never written again: that
    /// is the deduplication contract, and storing the same stream twice
    /// leaves the store untouched. If no already-stored block collides
    /// with a chunk of this stream, reading the returned addresses back
    /// yields the stream.
    pub fn store(&mut self, data: &Vec<u8>, report: &mut Report) -> (r: (Vec<Address>, Vec<u8>))
        ensures
            r.1@ == hash_of(data@),
            addrs_view(r.0@).len() == chunks_of(data@).len(),
            forall|i: int|
                0 <= i < chunks_of(data@).len() ==> {
                    let a = #[trigger] addrs_view(r.0@)[i];
                    a.hash == hash_of(chunks_of(data@)[i]) && a.start == 0 && a.len == chunks_of(
                        data@,
                    )[i].len()
                },
            forall|i: int|
                0 <= i < chunks_of(data@).len() ==> final(self).lookup(
                    hash_of(#[trigger] chunks_of(data@)[i]),
                ) is Some,
            forall|h: Seq<u8>|
                old(self).lookup(h) is Some ==> final(self).lookup(h) == old(self).lookup(h),
            forall|h: Seq<u8>|
                final(self).lookup(h) != old(self).lookup(h) ==> exists|i: int|
                    0 <= i < chunks_of(data@).len() && h == hash_of(#[trigger] chunks_of(data@)[i])
                        && final(self).lookup(h) == Some(chunks_of(data@)[i]),
            all_chunks_present(old(self).blocks_view(), data@) ==> final(self).blocks_view()
                == old(self).blocks_view() && final(report).count_of("block.write"@) == old(
                report,
            ).count_of("block.write"@),
            store_clean(old(self).blocks_view(), data@) ==> read_spec(
                final(self).blocks_view(),
                addrs_view(r.0@),
            ) == Some(data@),
            final(self).blocks_view() == store_blocks(old(self).blocks_view(), chunks_of(data@)),
            final(report).count_of("block.write"@) == (if old(report).count_of("block.write"@)
                + store_writes(old(self).blocks_view(), chunks_of(data@)) <= u64::MAX {
                (old(report).count_of("block.write"@) + store_writes(
                    old(self).blocks_view(),
                    chunks_of(data@),
                )) as u64
            } else {
                u64::MAX
            }),
            forall|n: Seq<char>|
                n != "block.write"@ ==> final(report).count_of(n) == old(report).count_of(n),
    {
        let whole = block_hash(data);
        let mut addrs: Vec<Address> = Vec::new();
        let mut off: usize = 0;
        let ghost cs = chunks_of(data@);
        proof {
            assert(data@.skip(0) =~= data@);
            assert(cs.skip(0) =~= cs);
            assert(addrs_view(addrs@) =~= Seq::<AddressV>::empty());
            assert(cs.take(0) =~= Seq::<Seq<u8>>::empty());
            assert(store_blocks(old(self).blocks_view(), cs.take(0)) == old(self).blocks_view());
            assert(store_writes(old(self).blocks_view(), cs.take(0)) == 0);
        }
        while off < data.len()
            invariant
                off <= data.len(),
                cs == chunks_of(data@),
                addrs.len() <= cs.len(),
                cs.skip(addrs@.len() as int) == chunks_of(data@.skip(off as int)),
                off == data.len() ==> addrs@.len() == cs.len(),
                forall|i: int|
                    0 <= i < addrs@.len() ==> {
                        let a = #[trigger] addrs_view(addrs@)[i];
                        a.hash == hash_of(cs[i]) && a.start == 0 && a.len == cs[i].len()
                    },
                forall|i: int|
                    0 <= i < addrs@.len() ==> self.lookup(hash_of(#[trigger] cs[i])) is Some,
                forall|h: Seq<u8>|
                    old(self).lookup(h) is Some ==> self.lookup(h) == old(self).lookup(h),
                forall|h: Seq<u8>|
                    self.lookup(h) != old(self).lookup(h) ==> exists|i: int|
                        0 <= i < addrs@.len() && h == hash_of(#[trigger] cs[i]) && self.lookup(h)
                            == Some(cs[i]),
                (forall|i: int|
                    0 <= i < addrs@.len() ==> old(self).lookup(hash_of(#[trigger] cs[i])) is Some)
                    ==> self.blocks_view() == old(self).blocks_view() && report.count_of(
                    "block.write"@,
                ) == old(report).count_of("block.write"@),
                self.blocks_view() == store_blocks(
                    old(self).blocks_view(),
                    cs.take(addrs@.len() as int),
                ),
                report.count_of("block.write"@) == (if old(report).count_of("block.write"@)
                    + store_writes(old(self).blocks_view(), cs.take(addrs@.len() as int))
                    <= u64::MAX {
                    (old(report).count_of("block.write"@) + store_writes(
                        old(self).blocks_view(),
                        cs.take(addrs@.len() as int),
                    )) as u64
                } else {
                    u64::MAX
                }),
                forall|n: Seq<char>|
                    n != "block.write"@ ==> report.count_of(n) == old(report).count_of(n),
            decreases data.len() - off,
        {
            let end: usize = if data.len() - off <= MAX_BLOCK_SIZE {
                data.len()
            } else {
                off + MAX_BLOCK_SIZE
            };
            let ghost k = addrs@.len() as int;
            proof {
                assert(chunks_of(data@.skip(off as int)).len() >= 1);
                if data@.len() - off > MAX_BLOCK_SIZE {
                    assert(data@.skip(off as int).take(MAX_BLOCK_SIZE as int) =~= data@.subrange(
                        off as int,
                        end as int,
                    ));
                    assert(chunks_of(data@.skip(off as int))[0] == data@.skip(off as int).take(
                        MAX_BLOCK_SIZE as int,
                    ));
                } else {
                    assert(chunks_of(data@.skip(off as int)) == seq![data@.skip(off as int)]);
                    assert(chunks_of(data@.skip(off as int))[0] == data@.skip(off as int));
                    assert(data@.skip(off as int) =~= data@.subrange(off as int, end as int));
                }
                assert(cs.skip(k)[0] == cs[k]);
                assert(cs[k] == data@.subrange(off as int, end as int));
                assert(cs.take(k + 1).drop_last() =~= cs.take(k));
                assert(cs.take(k + 1).last() == cs[k]);
                lemma_store_writes_nonneg(old(self).blocks_view(), cs.take(k));
            }
            let chunk = crate::bytes::bytes_slice(data, off, end);
            let h = block_hash(&chunk);
            let ghost before = self.blocks_view();
            if !self.contains(&h) {
                let name = h.clone();
                self.blocks.push((name, chunk));
                report.increment("block.write");
                proof {
                    assert(self.blocks_view() =~= before.push((h@, data@.subrange(
                        off as int,
                        end as int,
                    ))));
                    assert(forall|n: Seq<u8>|
                        #[trigger] bd_lookup(self.blocks_view(), n) == (match bd_lookup(before, n) {
                            Some(x) => Some(x),
                            None => if n == h@ {
                                Some(cs[k])
                            } else {
                                None
                            },
                        })) by {
                        assert forall|n: Seq<u8>| true implies #[trigger] bd_lookup(
                            self.blocks_view(),
                            n,
                        ) == (match bd_lookup(before, n) {
                            Some(x) => Some(x),
                            None => if n == h@ {
                                Some(cs[k])
                            } else {
                                None
                            },
                        }) by {
                            lemma_bd_push(before, h@, cs[k], n);
                        }
                    }
                }
            }
            let a = Address { hash: h, start: 0, len: (end - off) as u64 };
            let ghost prevaddrs = addrs_view(addrs@);
            addrs.push(a);
            proof {
                assert(addrs_view(addrs@) =~= prevaddrs.push(a@));
                assert(cs.skip(k).skip(1) =~= cs.skip(k + 1));
                assert(chunks_of(data@.skip(off as int)).skip(1) =~= chunks_of(
                    data@.skip(end as int),
                )) by {
                    if data@.len() - off > MAX_BLOCK_SIZE {
                        assert(data@.skip(off as int).skip(MAX_BLOCK_SIZE as int) =~= data@.skip(
                            end as int,
                        ));
                    } else {
                        assert(chunks_of(data@.skip(off as int)).skip(1) =~= Seq::<
                            Seq<u8>,
                        >::empty());
                        assert(data@.skip(end as int) =~= Seq::<u8>::empty());
                    }
                }
            }
            off = end;
        }
        proof {
            assert(data@.skip(data@.len() as int) =~= Seq::<u8>::empty());
            assert(addrs_view(addrs@).len() == cs.len());
            assert(cs.take(addrs@.len() as int) =~= cs);
            if store_clean(old(self).blocks_view(), data@) {
                assert forall|i: int| 0 <= i < cs.len() implies self.lookup(
                    hash_of(#[trigger] cs[i]),
                ) == Some(cs[i]) by {
                    assert(self.lookup(hash_of(cs[i])) is Some);
                    if self.lookup(hash_of(cs[i])) == old(self).lookup(hash_of(cs[i])) {
                    } else {
                        let j = choose|j: int|
                            0 <= j < cs.len() && hash_of(cs[i]) == hash_of(#[trigger] cs[j])
                                && self.lookup(hash_of(cs[i])) == Some(cs[j]);
                        assert(cs[j] == cs[i]);
                    }
                }
                lemma_read_chunks(self.blocks_view(), addrs_view(addrs@), cs);
                lemma_chunks_concat(data@);
            }
        }
        (addrs, whole)
    }

    /// Read a list of addresses back: resolve each block, re-check its
    /// content against its name, and concatenate the addressed ranges.
    pub fn read(&self, addrs: &Vec<Address>) -> (r: Result<Vec<u8>, Error>)
        ensures
            match r {
                Ok(v) => read_spec(self.blocks_view(), addrs_view(addrs@)) == Some(v@),
                Err(e) => {
                    &&& read_spec(self.blocks_view(), addrs_view(addrs@)) is None
                    &&& (e is BlockNotFound ==> exists|i: int|
                        0 <= i < addrs_view(addrs@).len() && bd_lookup(
                            self.blocks_view(),
                            (#[trigger] addrs_view(addrs@)[i]).hash,
                        ) is None)
                    &&& (e is BlockCorrupt ==> exists|i: int|
                        0 <= i < addrs_view(addrs@).len() && (bd_lookup(
                            self.blocks_view(),
                            (#[trigger] addrs_view(addrs@)[i]).hash,
                        ) matches Some(c) && (hash_of(c) != addrs_view(addrs@)[i].hash
                            || addrs_view(addrs@)[i].start + addrs_view(addrs@)[i].len > c.len())))
                    &&& (e is BlockNotFound || e is BlockCorrupt)
                },
            },
    {
        let ghost avs = addrs_view(addrs@);
        let mut out: Vec<u8> = Vec::new();
        let mut i: usize = 0;
        proof {
            assert(avs.skip(0) =~= avs);
        }
        while i < addrs.len()
            invariant
                i <= addrs.len(),
                avs == addrs_view(addrs@),
                (match read_spec(self.blocks_view(), avs.skip(i as int)) {
                    Some(rest) => read_spec(self.blocks_view(), avs) == Some(out@ + rest),
                    None => read_spec(self.blocks_view(), avs) is None,
                }),
            decreases addrs.len() - i,
        {
            proof {
                assert(avs.skip(i as int)[0] == avs[i as int]);
                assert(avs.skip(i as int).skip(1) =~= avs.skip(i + 1 as int));
            }
            let a = &addrs[i];
            let j = match self.find(&a.hash) {
                Some(j) => j,
                None => {
                    return Err(Error::BlockNotFound { hash: a.hash.clone() });
                },
            };
            let c = &self.blocks[j].1;
            let h2 = block_hash(c);
            if !crate::bytes::bytes_eq(&h2, &a.hash) {
                return Err(Error::BlockCorrupt { hash: a.hash.clone() });
            }
            if a.len > c.len() as u64 || a.start > c.len() as u64 - a.len {
                return Err(Error::BlockCorrupt { hash: a.hash.clone() });
            }
            let from = a.start as usize;
            let to = (a.start + a.len) as usize;
            let piece = crate::bytes::bytes_slice(c, from, to);
            let ghost prev = out@;
            crate::bytes::bytes_append(&mut out, &piece);
            proof {
                assert(forall|rest: Seq<u8>|
                    prev + (piece@ + rest) =~= #[trigger] (prev + piece@ + rest));
            }
            i = i + 1;
        }
        proof {
            assert(avs.skip(addrs@.len() as int) =~= Seq::<AddressV>::empty());
            assert(out@ + Seq::<u8>::empty() =~= out@);
        }
        Ok(out)
    }

    /// Re-hash every stored block and count each mismatch into the
    /// report, without aborting the scan: a corrupt archive should be
    /// diagnosable, not merely fatal.
    pub fn validate(&self, report: &mut Report) -> (r: Result<(), Error>)
        ensures
            r is Ok,
            final(report).count_of("block.corrupt"@) == (if old(report).count_of("block.corrupt"@)
                + corrupt_count(self.blocks_view()) <= u64::MAX {
                (old(report).count_of("block.corrupt"@) + corrupt_count(self.blocks_view())) as u64
            } else {
                u64::MAX
            }),
            forall|n: Seq<char>|
                n != "block.corrupt"@ ==> final(report).count_of(n) == old(report).count_of(n),
    {
        let ghost bv = self.blocks_view();
        let mut i: usize = 0;
        proof {
            assert(corrupt_count(bv.take(0)) == 0) by {
                assert(bv.take(0) =~= Seq::<(Seq<u8>, Seq<u8>)>::empty());
            }
            lemma_corrupt_nonneg(bv);
        }
        while i < self.blocks.len()
            invariant
                i <= self.blocks.len(),
                bv == self.blocks_view(),
                bv.len() == self.blocks.len(),
                0 <= corrupt_count(bv.take(i as int)),
                report.count_of("block.corrupt"@) == (if old(report).count_of("block.corrupt"@)
                    + corrupt_count(bv.take(i as int)) <= u64::MAX {
                    (old(report).count_of("block.corrupt"@) + corrupt_count(
                        bv.take(i as int),
                    )) as u64
                } else {
                    u64::MAX
                }),
                forall|n: Seq<char>|
                    n != "block.corrupt"@ ==> report.count_of(n) == old(report).count_of(n),
            decreases self.blocks.len() - i,
        {
            proof {
                assert(bv.take(i + 1 as int).drop_last() =~= bv.take(i as int));
                assert(bv.take(i + 1 as int).last() == bv[i as int]);
                lemma_corrupt_nonneg(bv.take(i as int));
            }
            let h2 = block_hash(&self.blocks[i].1);
            if !crate::bytes::bytes_eq(&h2, &self.blocks[i].0) {
                report.increment("block.corrupt");
            }
            i = i + 1;
        }
        proof {
            assert(bv.take(bv.len() as int) =~= bv);
        }
        Ok(())
    }
}

/// A mismatch count is never negative.
pub proof fn lemma_corrupt_nonneg(blocks: Seq<(Seq<u8>, Seq<u8>)>)
    ensures
        corrupt_count(blocks) >= 0,
    decreases blocks.len(),
{
    if blocks.len() != 0 {
        lemma_corrupt_nonneg(blocks.drop_last());
    }
}

} // verus!
