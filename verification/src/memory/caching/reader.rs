use crate::memory::address::{Address, AddressRange, VariableLengthAddressRange};
use crate::memory::reader::{
    events_since, lemma_events_chain, lemma_no_events, other_error, MemoryReader, ReadEvent,
};
use std::collections::HashMap;
use vstd::arithmetic::div_mod::{lemma_fundamental_div_mod, lemma_fundamental_div_mod_converse};
use vstd::prelude::*;

verus! {

broadcast use vstd::std_specs::hash::group_hash_axioms;

/// `history` holds a request for the whole of page `page_num` that was
/// answered with `bytes`.
pub open spec fn page_was_read(history: Seq<ReadEvent>, page_num: usize, page_size: usize, bytes: Seq<u8>) -> bool {
    &&& page_num * page_size <= usize::MAX
    &&& exists|i: int|
        0 <= i < history.len() && #[trigger] history[i] == ReadEvent::answered(
            Address((page_num * page_size) as usize),
            page_size,
            Ok(bytes),
        )
}

/// The page that holds the byte at offset `raw`.
pub open spec fn page_of(raw: int, page_size: usize) -> int {
    raw / (page_size as int)
}

/// Where in its page the byte at offset `raw` lies.
pub open spec fn offset_in_page(raw: int, page_size: usize) -> int {
    raw % (page_size as int)
}

/// A reader that keeps every page it has read through another reader, and
/// answers from the pages it has kept. Pages are never dropped or read again:
/// for fresh data, make a new cache.
pub struct CachingMemoryReader<M: MemoryReader, const PAGE_SIZE: usize> {
    reader: M,
    cache: HashMap<usize, [u8; PAGE_SIZE]>,
    log: Ghost<Seq<ReadEvent>>,
}

impl<M: MemoryReader, const PAGE_SIZE: usize> CachingMemoryReader<M, PAGE_SIZE> {
    /// Every page that is kept is what the reader behind the cache once
    /// answered for it.
    pub closed spec fn consistent(&self) -> bool {
        forall|page_num: usize| #[trigger]
            self.cache@.contains_key(page_num) ==> page_was_read(
                self.reader.history(),
                page_num,
                PAGE_SIZE,
                self.cache@[page_num]@,
            )
    }

    /// In a consistent cache, a page that is kept is a whole page that the
    /// reader behind the cache once answered.
    pub proof fn lemma_consistent(&self, page_num: usize)
        requires
            self.consistent(),
            self.cached().contains_key(page_num),
        ensures
            self.cached()[page_num].len() == PAGE_SIZE,
            page_was_read(self.inner_history(), page_num, PAGE_SIZE, self.cached()[page_num]),
    {
        assert(self.cache@.contains_key(page_num));
    }

    /// The pages that are kept, by page number.
    pub closed spec fn cached(&self) -> Map<usize, Seq<u8>> {
        Map::new(|page_num: usize| self.cache@.contains_key(page_num), |page_num: usize| self.cache@[page_num]@)
    }

    /// The requests that the reader behind the cache has answered.
    pub closed spec fn inner_history(&self) -> Seq<ReadEvent> {
        self.reader.history()
    }

    /// A cache in front of `reader` that holds no page yet.
    pub fn new(reader: M) -> (r: Self)
        ensures
            r.consistent(),
            r.cached() == Map::<usize, Seq<u8>>::empty(),
            r.inner_history() == reader.history(),
            r.history() == Seq::<ReadEvent>::empty(),
    {
        let r = Self { reader, cache: HashMap::new(), log: Ghost(Seq::empty()) };
        assert(r.cached() =~= Map::<usize, Seq<u8>>::empty());
        r
    }

    /// Makes sure that page `page_num` is kept. A page that is kept already
    /// is left alone, and nothing is read; else the whole page is requested
    /// from the reader behind the cache, and kept if the request succeeds.
    pub fn add_page_to_cache(&mut self, page_num: usize) -> (r: Result<(), std::io::Error>)
        requires
            page_num * PAGE_SIZE <= usize::MAX,
        ensures
            final(self).history() == old(self).history(),
            old(self).consistent() ==> final(self).consistent(),
            old(self).cached().contains_key(page_num) ==> {
                &&& r is Ok
                &&& final(self).cached() == old(self).cached()
                &&& final(self).inner_history() == old(self).inner_history()
            },
            !old(self).cached().contains_key(page_num) ==> {
                &&& final(self).inner_history() == old(self).inner_history().push(
                    ReadEvent::answered(
                        Address((page_num * PAGE_SIZE) as usize),
                        PAGE_SIZE,
                        match r {
                            Ok(_) => Ok(final(self).cached()[page_num]),
                            Err(e) => Err(e),
                        },
                    ),
                )
                &&& r is Ok ==> final(self).cached() == old(self).cached().insert(
                    page_num,
                    final(self).cached()[page_num],
                )
                &&& r is Err ==> final(self).cached() == old(self).cached()
            },
    {
        if self.cache.contains_key(&page_num) {
            return Ok(());
        }
        let ghost before = self.reader.history();
        let ghost old_cache = self.cache@;
        let start = Address::new(page_num * PAGE_SIZE);
        let answer = self.reader.read(AddressRange::<PAGE_SIZE> { start });
        proof {
            assert forall|p: usize| old(self).consistent() && #[trigger] old_cache.contains_key(p) implies page_was_read(
                self.reader.history(),
                p,
                PAGE_SIZE,
                old_cache[p]@,
            ) by {
                assert(page_was_read(before, p, PAGE_SIZE, old_cache[p]@));
                let i = choose|i: int|
                    0 <= i < before.len() && #[trigger] before[i] == ReadEvent::answered(
                        Address((p * PAGE_SIZE) as usize),
                        PAGE_SIZE,
                        Ok(old_cache[p]@),
                    );
                assert(self.reader.history()[i] == before[i]);
            }
        }
        match answer {
            Ok(page) => {
                proof {
                    let now = self.reader.history();
                    assert(now[now.len() - 1] == ReadEvent::answered(start, PAGE_SIZE, Ok(page@)));
                    assert(page_was_read(now, page_num, PAGE_SIZE, page@));
                }
                self.cache.insert(page_num, page);
                assert(self.cached() =~= old(self).cached().insert(page_num, page@));
                Ok(())
            },
            Err(e) => {
                assert(self.cached() =~= old(self).cached());
                Err(e)
            },
        }
    }
}

/// The requests in `fetched` are for whole pages among the pages `first` to
/// `last` that `kept` does not hold, in rising order; none but the last has
/// failed.
pub open spec fn fetches_pages(
    fetched: Seq<ReadEvent>,
    kept: Map<usize, Seq<u8>>,
    first: int,
    last: int,
    page_size: usize,
) -> bool {
    &&& forall|i: int|
        0 <= i < fetched.len() ==> exists|page_num: usize|
            {
                &&& first <= page_num <= last
                &&& page_num * page_size <= usize::MAX
                &&& !kept.contains_key(page_num)
                &&& (#[trigger] fetched[i]).asks(Address((page_num * page_size) as usize), page_size)
            }
    &&& forall|i: int, j: int| 0 <= i < j < fetched.len() ==> fetched[i].start@ < fetched[j].start@
    &&& forall|i: int| 0 <= i < fetched.len() - 1 ==> (#[trigger] fetched[i]).outcome is Ok
}

/// A page that was requested with success is among `pages`, with the bytes
/// that the request was answered with.
pub open spec fn keeps_page(pages: Map<usize, Seq<u8>>, event: ReadEvent, page_size: usize) -> bool {
    event.outcome matches Ok(bytes) ==> exists|page_num: usize|
        event.start@ == page_num * page_size && #[trigger] pages.contains_key(page_num) && pages[page_num] == bytes
}

/// Each of `pages` was among `kept` already, or was requested with success
/// by one of `fetched`.
pub open spec fn keeps_no_more(
    pages: Map<usize, Seq<u8>>,
    kept: Map<usize, Seq<u8>>,
    fetched: Seq<ReadEvent>,
    page_size: usize,
) -> bool {
    forall|page_num: usize| #[trigger]
        pages.contains_key(page_num) ==> kept.contains_key(page_num) || exists|i: int|
            0 <= i < fetched.len() && (#[trigger] fetched[i]).start@ == page_num * page_size && fetched[i].outcome is Ok
}

/// Byte `index` of `bytes` is the byte that `pages` hold for the offset
/// `start + index`.
pub open spec fn served_from(
    pages: Map<usize, Seq<u8>>,
    start: int,
    bytes: Seq<u8>,
    index: int,
    page_size: usize,
) -> bool {
    let page_num = page_of(start + index, page_size) as usize;
    &&& pages.contains_key(page_num)
    &&& bytes[index] == pages[page_num][offset_in_page(start + index, page_size)]
}

impl<M: MemoryReader, const PAGE_SIZE: usize> MemoryReader for CachingMemoryReader<M, PAGE_SIZE> {
    closed spec fn history(&self) -> Seq<ReadEvent> {
        self.log@
    }

    /// Reads `range` page by page. Pages that are kept are not read again;
    /// the others are requested whole from the reader behind the cache, in
    /// rising order, and kept. The first page that cannot be read ends the
    /// reading with its error. The answer is put together from the pages'
    /// bytes. An empty range is answered at once, and a range that leaves the
    /// address space is refused, both with nothing read.
    fn read_vec(&mut self, range: VariableLengthAddressRange) -> (r: Result<Vec<u8>, std::io::Error>)
        ensures
            old(self).consistent() ==> final(self).consistent(),
            old(self).cached().submap_of(final(self).cached()),
            old(self).inner_history().is_prefix_of(final(self).inner_history()),
            range.num_bytes == 0 || range.end() > usize::MAX + 1 || PAGE_SIZE == 0 ==> {
                &&& final(self).cached() == old(self).cached()
                &&& final(self).inner_history() == old(self).inner_history()
                &&& (range.num_bytes == 0 <==> r is Ok)
            },
            range.num_bytes > 0 && range.end() <= usize::MAX + 1 && PAGE_SIZE > 0 ==> {
                &&& fetches_pages(
                    events_since(old(self).inner_history(), final(self).inner_history()),
                    old(self).cached(),
                    page_of(range.start@, PAGE_SIZE),
                    page_of(range.end() - 1, PAGE_SIZE),
                    PAGE_SIZE,
                )
                &&& forall|i: int|
                    0 <= i < events_since(old(self).inner_history(), final(self).inner_history()).len()
                        ==> keeps_page(
                        final(self).cached(),
                        #[trigger] events_since(old(self).inner_history(), final(self).inner_history())[i],
                        PAGE_SIZE,
                    )
                &&& keeps_no_more(
                    final(self).cached(),
                    old(self).cached(),
                    events_since(old(self).inner_history(), final(self).inner_history()),
                    PAGE_SIZE,
                )
                &&& r matches Err(e) ==> final(self).inner_history().len() > old(self).inner_history().len()
                    && final(self).inner_history().last().outcome == Err::<Seq<u8>, std::io::Error>(e)
                &&& r is Ok ==> forall|i: int|
                    0 <= i < events_since(old(self).inner_history(), final(self).inner_history()).len()
                        ==> (#[trigger] events_since(old(self).inner_history(), final(self).inner_history())[i]).outcome is Ok
            },
            r matches Ok(bytes) ==> forall|index: int|
                0 <= index < range.num_bytes ==> #[trigger] served_from(
                    final(self).cached(),
                    range.start@,
                    bytes@,
                    index,
                    PAGE_SIZE,
                ),
    {
        proof {
            lemma_no_events(self.reader.history());
        }
        let mut result: Vec<u8> = Vec::with_capacity(range.num_bytes);
        if range.num_bytes == 0 {
            self.log = Ghost(self.log@.push(ReadEvent::answered(range.start, range.num_bytes, Ok(result@))));
            return Ok(result);
        }
        if PAGE_SIZE == 0 {
            let error = other_error("the pages of the cache have no bytes");
            self.log = Ghost(self.log@.push(ReadEvent::answered(range.start, range.num_bytes, Err(error))));
            return Err(error);
        }
        let range_start: usize = range.start.raw();
        let last_byte: usize = match range_start.checked_add(range.num_bytes - 1) {
            Some(last_byte) => last_byte,
            None => {
                let error = other_error("range exceeds the address space");
                self.log = Ghost(self.log@.push(ReadEvent::answered(range.start, range.num_bytes, Err(error))));
                return Err(error);
            },
        };
        let first_page_num: usize = range_start / PAGE_SIZE;
        let last_page_num: usize = last_byte / PAGE_SIZE;
        let ghost inner_before = self.reader.history();
        let ghost kept_before = self.cached();
        let ghost log_before = self.log@;
        proof {
            lemma_fundamental_div_mod(range_start as int, PAGE_SIZE as int);
            lemma_fundamental_div_mod(last_byte as int, PAGE_SIZE as int);
            lemma_page_order(range_start as int, last_byte as int, PAGE_SIZE as int);
            assert(PAGE_SIZE * first_page_num == first_page_num * PAGE_SIZE) by (nonlinear_arith);
        }
        let mut page_num: usize = first_page_num;
        let mut page_base: usize = range_start - range_start % PAGE_SIZE;
        loop
            invariant
                PAGE_SIZE > 0,
                range.start@ == range_start,
                range.num_bytes > 0,
                last_byte == range_start + range.num_bytes - 1,
                first_page_num == range_start as int / PAGE_SIZE as int,
                last_page_num == last_byte as int / PAGE_SIZE as int,
                first_page_num <= page_num <= last_page_num,
                page_base == page_num * PAGE_SIZE,
                inner_before == old(self).inner_history(),
                kept_before == old(self).cached(),
                log_before == old(self).history(),
                self.log@ == log_before,
                old(self).consistent() ==> self.consistent(),
                inner_before.is_prefix_of(self.reader.history()),
                kept_before.submap_of(self.cached()),
                result@.len() == if page_num == first_page_num {
                    0
                } else {
                    page_base - range_start
                },
                forall|index: int|
                    0 <= index < result@.len() ==> #[trigger] served_from(
                        self.cached(),
                        range_start as int,
                        result@,
                        index,
                        PAGE_SIZE,
                    ),
                fetches_pages(
                    events_since(inner_before, self.reader.history()),
                    kept_before,
                    first_page_num as int,
                    last_page_num as int,
                    PAGE_SIZE,
                ),
                forall|i: int|
                    0 <= i < events_since(inner_before, self.reader.history()).len() ==> {
                        &&& (#[trigger] events_since(inner_before, self.reader.history())[i]).outcome is Ok
                        &&& events_since(inner_before, self.reader.history())[i].start@ < page_base
                    },
                forall|i: int|
                    0 <= i < events_since(inner_before, self.reader.history()).len() ==> keeps_page(
                        self.cached(),
                        #[trigger] events_since(inner_before, self.reader.history())[i],
                        PAGE_SIZE,
                    ),
                keeps_no_more(self.cached(), kept_before, events_since(inner_before, self.reader.history()), PAGE_SIZE),
            decreases last_page_num - page_num,
        {
            let ghost inner_middle = self.reader.history();
            let ghost kept_middle = self.cached();
            let fetched = self.add_page_to_cache(page_num);
            proof {
                lemma_events_chain(inner_before, inner_middle, self.reader.history());
                let events = events_since(inner_before, self.reader.history());
                let earlier = events_since(inner_before, inner_middle);
                if !kept_middle.contains_key(page_num) {
                    assert(!kept_before.contains_key(page_num));
                    assert(events =~= earlier.push(self.reader.history().last()));
                    assert(events[events.len() - 1].asks(Address((page_num * PAGE_SIZE) as usize), PAGE_SIZE));
                    assert forall|i: int| 0 <= i < events.len() implies exists|p: usize|
                        {
                            &&& first_page_num <= p <= last_page_num
                            &&& p * PAGE_SIZE <= usize::MAX
                            &&& !kept_before.contains_key(p)
                            &&& (#[trigger] events[i]).asks(Address((p * PAGE_SIZE) as usize), PAGE_SIZE)
                        } by {
                        if i < earlier.len() {
                            assert(events[i] == earlier[i]);
                            let p = choose|p: usize|
                                {
                                    &&& first_page_num <= p <= last_page_num
                                    &&& p * PAGE_SIZE <= usize::MAX
                                    &&& !kept_before.contains_key(p)
                                    &&& (#[trigger] earlier[i]).asks(Address((p * PAGE_SIZE) as usize), PAGE_SIZE)
                                };
                            assert(events[i].asks(Address((p * PAGE_SIZE) as usize), PAGE_SIZE));
                        } else {
                            assert(events[i].asks(Address((page_num * PAGE_SIZE) as usize), PAGE_SIZE));
                        }
                    }
                    assert forall|i: int, j: int| 0 <= i < j < events.len() implies events[i].start@ < events[j].start@ by {
                        if j < earlier.len() {
                            assert(events[i] == earlier[i]);
                            assert(events[j] == earlier[j]);
                        } else {
                            assert(events[i] == earlier[i]);
                        }
                    }
                    assert forall|i: int| 0 <= i < events.len() - 1 implies (#[trigger] events[i]).outcome is Ok by {
                        assert(events[i] == earlier[i]);
                    }
                    assert forall|i: int| 0 <= i < events.len() implies keeps_page(
                        self.cached(),
                        #[trigger] events[i],
                        PAGE_SIZE,
                    ) by {
                        if i < earlier.len() {
                            assert(events[i] == earlier[i]);
                            assert(keeps_page(kept_middle, earlier[i], PAGE_SIZE));
                            if earlier[i].outcome is Ok {
                                let kept_page = choose|kept_page: usize|
                                    earlier[i].start@ == kept_page * PAGE_SIZE && #[trigger] kept_middle.contains_key(
                                        kept_page,
                                    ) && kept_middle[kept_page] == earlier[i].outcome->Ok_0;
                                assert(kept_page != page_num);
                                assert(self.cached().contains_key(kept_page));
                            }
                        } else if events[i].outcome is Ok {
                            assert(self.cached().contains_key(page_num));
                        }
                    }
                    assert forall|kept_page: usize| #[trigger] self.cached().contains_key(kept_page) implies kept_before.contains_key(
                        kept_page,
                    ) || exists|i: int|
                        0 <= i < events.len() && (#[trigger] events[i]).start@ == kept_page * PAGE_SIZE
                            && events[i].outcome is Ok by {
                        if kept_middle.contains_key(kept_page) {
                            if !kept_before.contains_key(kept_page) {
                                let i = choose|i: int|
                                    0 <= i < earlier.len() && (#[trigger] earlier[i]).start@ == kept_page * PAGE_SIZE
                                        && earlier[i].outcome is Ok;
                                assert(events[i] == earlier[i]);
                            }
                        } else {
                            assert(kept_page == page_num);
                            assert(events[events.len() - 1].start@ == page_num * PAGE_SIZE);
                        }
                    }
                } else {
                    assert(events =~= earlier);
                }
            }
            match fetched {
                Ok(_) => {},
                Err(e) => {
                    self.log = Ghost(self.log@.push(ReadEvent::answered(range.start, range.num_bytes, Err(e))));
                    return Err(e);
                },
            }
            proof {
                let events = events_since(inner_before, self.reader.history());
                let earlier = events_since(inner_before, inner_middle);
                assert forall|i: int| 0 <= i < events.len() implies (#[trigger] events[i]).outcome is Ok by {
                    if i < earlier.len() {
                        assert(events[i] == earlier[i]);
                    }
                }
                assert forall|index: int| 0 <= index < result@.len() implies #[trigger] served_from(
                    self.cached(),
                    range_start as int,
                    result@,
                    index,
                    PAGE_SIZE,
                ) by {
                    assert(served_from(kept_middle, range_start as int, result@, index, PAGE_SIZE));
                }
            }
            let lo: usize = if page_num == first_page_num {
                range_start % PAGE_SIZE
            } else {
                0
            };
            let hi: usize = if page_num == last_page_num {
                last_byte % PAGE_SIZE + 1
            } else {
                PAGE_SIZE
            };
            proof {
                if page_num < last_page_num {
                    lemma_next_page_in_reach(page_num as int, last_page_num as int, last_byte as int, PAGE_SIZE as int);
                }
                lemma_fundamental_div_mod(range_start as int, PAGE_SIZE as int);
                lemma_fundamental_div_mod(last_byte as int, PAGE_SIZE as int);
                assert(PAGE_SIZE * first_page_num == first_page_num * PAGE_SIZE) by (nonlinear_arith);
                assert(PAGE_SIZE * last_page_num == last_page_num * PAGE_SIZE) by (nonlinear_arith);
                if page_num == first_page_num && page_num == last_page_num {
                    assert(lo <= hi);
                }
                assert(self.cached().contains_key(page_num));
                assert(self.cache@.contains_key(page_num));
            }
            let page = self.cache.get(&page_num).unwrap();
            let ghost kept_now = self.cached();
            assert(kept_now[page_num] == page@);
            let ghost before_page = result@;
            let mut offset: usize = lo;
            while offset < hi
                invariant
                    PAGE_SIZE > 0,
                    lo <= offset <= hi <= PAGE_SIZE,
                    page_base == page_num * PAGE_SIZE,
                    page_base + lo == range_start + before_page.len(),
                    result@.len() == before_page.len() + (offset - lo),
                    kept_now.contains_key(page_num),
                    kept_now[page_num] == page@,
                    forall|index: int|
                        0 <= index < result@.len() ==> #[trigger] served_from(
                            kept_now,
                            range_start as int,
                            result@,
                            index,
                            PAGE_SIZE,
                        ),
                decreases hi - offset,
            {
                let ghost previous = result@;
                result.push(page[offset]);
                proof {
                    let index = previous.len() as int;
                    lemma_fundamental_div_mod_converse(
                        range_start + index,
                        PAGE_SIZE as int,
                        page_num as int,
                        offset as int,
                    );
                    assert forall|k: int| 0 <= k < result@.len() implies #[trigger] served_from(
                        kept_now,
                        range_start as int,
                        result@,
                        k,
                        PAGE_SIZE,
                    ) by {
                        if k < index {
                            assert(served_from(kept_now, range_start as int, previous, k, PAGE_SIZE));
                        }
                    }
                }
                offset += 1;
            }
            if page_num == last_page_num {
                proof {
                    assert(result@.len() == range.num_bytes);
                }
                self.log = Ghost(self.log@.push(ReadEvent::answered(range.start, range.num_bytes, Ok(result@))));
                return Ok(result);
            }
            proof {
                assert((page_num + 1) * PAGE_SIZE == page_num * PAGE_SIZE + PAGE_SIZE) by (nonlinear_arith);
                let events = events_since(inner_before, self.reader.history());
                assert forall|i: int| 0 <= i < events.len() implies events[i].start@ < page_base + PAGE_SIZE by {
                    if i == events.len() - 1 && !kept_middle.contains_key(page_num) {
                    } else {
                        let earlier = events_since(inner_before, inner_middle);
                        assert(events[i] == earlier[i]);
                    }
                }
            }
            page_num += 1;
            page_base += PAGE_SIZE;
        }
    }
}

/// The page of a later byte is no earlier page.
proof fn lemma_page_order(first: int, last: int, page_size: int)
    requires
        0 <= first <= last,
        page_size > 0,
    ensures
        first / page_size <= last / page_size,
{
    vstd::arithmetic::div_mod::lemma_div_is_ordered(first, last, page_size);
}

/// The page after a page that lies before the last page begins at or before
/// the last byte.
proof fn lemma_next_page_in_reach(page_num: int, last_page_num: int, last_byte: int, page_size: int)
    requires
        0 <= page_num < last_page_num,
        last_page_num == last_byte / page_size,
        page_size > 0,
        0 <= last_byte,
    ensures
        (page_num + 1) * page_size <= last_byte,
        (page_num + 1) * page_size == page_num * page_size + page_size,
{
    lemma_fundamental_div_mod(last_byte, page_size);
    assert((page_num + 1) * page_size <= last_page_num * page_size) by (nonlinear_arith)
        requires
            page_num + 1 <= last_page_num,
            page_size > 0,
    ;
    assert(last_page_num * page_size == page_size * last_page_num) by (nonlinear_arith);
    assert((page_num + 1) * page_size == page_num * page_size + page_size) by (nonlinear_arith);
}

} // verus!
