use vstd::prelude::*;
use vstd::string::StringSliceAdditionalSpecFns;

use crate::error::{compression_failure, ErrorCode, H2Error, H2Result};

verus! {

/// What each entry of a header table counts for above its name and value
/// (RFC 7541 section 4.1).
pub const ENTRY_OVERHEAD: usize = 32;

/// The static table of RFC 7541 Appendix A; index `i` of HPACK is
/// position `i - 1` here.
pub const STATIC_TABLE: [(&'static str, &'static str); 61] = [
    (":authority", ""),
    (":method", "GET"),
    (":method", "POST"),
    (":path", "/"),
    (":path", "/index.html"),
    (":scheme", "http"),
    (":scheme", "https"),
    (":status", "200"),
    (":status", "204"),
    (":status", "206"),
    (":status", "304"),
    (":status", "400"),
    (":status", "404"),
    (":status", "500"),
    ("accept-charset", ""),
    ("accept-encoding", "gzip, deflate"),
    ("accept-language", ""),
    ("accept-ranges", ""),
    ("accept", ""),
    ("access-control-allow-origin", ""),
    ("age", ""),
    ("allow", ""),
    ("authorization", ""),
    ("cache-control", ""),
    ("content-disposition", ""),
    ("content-encoding", ""),
    ("content-language", ""),
    ("content-length", ""),
    ("content-location", ""),
    ("content-range", ""),
    ("content-type", ""),
    ("cookie", ""),
    ("date", ""),
    ("etag", ""),
    ("expect", ""),
    ("expires", ""),
    ("from", ""),
    ("host", ""),
    ("if-match", ""),
    ("if-modified-since", ""),
    ("if-none-match", ""),
    ("if-range", ""),
    ("if-unmodified-since", ""),
    ("last-modified", ""),
    ("link", ""),
    ("location", ""),
    ("max-forwards", ""),
    ("proxy-authenticate", ""),
    ("proxy-authorization", ""),
    ("range", ""),
    ("referer", ""),
    ("refresh", ""),
    ("retry-after", ""),
    ("server", ""),
    ("set-cookie", ""),
    ("strict-transport-security", ""),
    ("transfer-encoding", ""),
    ("user-agent", ""),
    ("vary", ""),
    ("via", ""),
    ("www-authenticate", ""),
];

/// A header field: a name and a value, as octets.
#[derive(Debug, Clone, PartialEq, Eq)]
pub struct Header {
    pub name: Vec<u8>,
    pub value: Vec<u8>,
}

impl View for Header {
    type V = (Seq<u8>, Seq<u8>);

    open spec fn view(&self) -> (Seq<u8>, Seq<u8>) {
        (self.name@, self.value@)
    }
}

/// The size that a header field counts for in a table.
pub open spec fn entry_size(h: (Seq<u8>, Seq<u8>)) -> nat {
    (h.0.len() + h.1.len() + ENTRY_OVERHEAD) as nat
}

/// A header field whose size can be counted in a `usize`.
pub open spec fn size_fits(h: (Seq<u8>, Seq<u8>)) -> bool {
    entry_size(h) <= usize::MAX
}

impl Header {
    pub fn size(&self) -> (r: usize)
        requires
            size_fits(self@),
        ensures
            r == entry_size(self@),
    {
        self.name.len() + self.value.len() + ENTRY_OVERHEAD
    }

    /// A copy of this header field.
    pub fn copy(&self) -> (r: Header)
        ensures
            r@ == self@,
    {
        Header {
            name: vstd::slice::slice_to_vec(self.name.as_slice()),
            value: vstd::slice::slice_to_vec(self.value.as_slice()),
        }
    }
}

/// The total size of a list of table entries.
pub open spec fn entries_size(entries: Seq<(Seq<u8>, Seq<u8>)>) -> nat
    decreases entries.len(),
{
    if entries.len() == 0 {
        0
    } else {
        entries_size(entries.drop_last()) + entry_size(entries.last())
    }
}

/// What is left of `entries` (newest first) once the oldest are dropped,
/// one by one, until `incoming` more fits within `max`, or none are left.
pub open spec fn evict(entries: Seq<(Seq<u8>, Seq<u8>)>, incoming: nat, max: nat) -> Seq<
    (Seq<u8>, Seq<u8>),
>
    decreases entries.len(),
{
    if entries.len() == 0 || entries_size(entries) + incoming <= max {
        entries
    } else {
        evict(entries.drop_last(), incoming, max)
    }
}

/// The contents of a dynamic table: its entries, newest first, the
/// maximum size in force, and the limit that the maximum may not pass.
pub struct TableView {
    pub entries: Seq<(Seq<u8>, Seq<u8>)>,
    pub max_size: nat,
    pub hard_limit: nat,
}

/// The table after `h` is added: the oldest entries are evicted to make
/// room, and `h` goes in front unless it is larger than the table itself.
pub open spec fn table_insert(t: TableView, h: (Seq<u8>, Seq<u8>)) -> TableView {
    let kept = evict(t.entries, entry_size(h), t.max_size);
    TableView {
        entries: if entry_size(h) > t.max_size {
            kept
        } else {
            seq![h] + kept
        },
        ..t
    }
}

/// The table after its maximum size is set to `new_max`.
pub open spec fn table_resize(t: TableView, new_max: nat) -> TableView {
    TableView { entries: evict(t.entries, 0, new_max), max_size: new_max, ..t }
}

/// The static entry at position `i`, as octets.
pub open spec fn static_entry(i: int) -> (Seq<u8>, Seq<u8>) {
    (STATIC_TABLE@[i].0.spec_bytes(), STATIC_TABLE@[i].1.spec_bytes())
}

/// The header field that an HPACK index stands for: 1 to 61 in the static
/// table, then the dynamic table, newest first; `None` for 0 and for an
/// index past the end.
pub open spec fn table_lookup(t: TableView, index: nat) -> Option<(Seq<u8>, Seq<u8>)> {
    if index == 0 {
        None
    } else if index <= 61 {
        Some(static_entry(index - 1))
    } else if index - 62 < t.entries.len() {
        Some(t.entries[index - 62])
    } else {
        None
    }
}

/// The table once our SETTINGS_HEADER_TABLE_SIZE is `limit`: shrunk to it
/// when it is larger, and no later size update may go above it.
pub open spec fn table_with_limit(t: TableView, limit: nat) -> TableView {
    if t.max_size > limit {
        TableView { hard_limit: limit, ..table_resize(t, limit) }
    } else {
        TableView { hard_limit: limit, ..t }
    }
}

/// The dynamic table of HPACK (RFC 7541 section 2.3.2).
#[derive(Debug)]
pub struct DynamicTable {
    entries: std::collections::VecDeque<Header>,
    size: usize,
    max_size: usize,
    hard_limit: usize,
}

impl View for DynamicTable {
    type V = TableView;

    closed spec fn view(&self) -> TableView {
        TableView {
            entries: self.entries@.map_values(|h: Header| h@),
            max_size: self.max_size as nat,
            hard_limit: self.hard_limit as nat,
        }
    }
}

proof fn lemma_entries_size_prepend(h: (Seq<u8>, Seq<u8>), entries: Seq<(Seq<u8>, Seq<u8>)>)
    ensures
        entries_size(seq![h] + entries) == entry_size(h) + entries_size(entries),
    decreases entries.len(),
{
    if entries.len() > 0 {
        lemma_entries_size_prepend(h, entries.drop_last());
        assert((seq![h] + entries).drop_last() =~= seq![h] + entries.drop_last());
    } else {
        assert((seq![h] + entries).drop_last() =~= entries);
    }
}

/// Eviction keeps the newest entries in order and drops only the oldest;
/// what is kept leaves room for `incoming`, unless nothing is kept.
pub proof fn lemma_evict_keeps_newest(entries: Seq<(Seq<u8>, Seq<u8>)>, incoming: nat, max: nat)
    ensures
        evict(entries, incoming, max).len() <= entries.len(),
        evict(entries, incoming, max) == entries.take(evict(entries, incoming, max).len() as int),
        evict(entries, incoming, max).len() == 0 || entries_size(evict(entries, incoming, max))
            + incoming <= max,
    decreases entries.len(),
{
    if !(entries.len() == 0 || entries_size(entries) + incoming <= max) {
        lemma_evict_keeps_newest(entries.drop_last(), incoming, max);
        let k = evict(entries, incoming, max).len() as int;
        assert(entries.drop_last().take(k) =~= entries.take(k));
    } else {
        assert(entries.take(entries.len() as int) =~= entries);
    }
}

/// An entry larger than the table evicts every entry.
proof fn lemma_evict_all(entries: Seq<(Seq<u8>, Seq<u8>)>, incoming: nat, max: nat)
    requires
        incoming > max,
    ensures
        evict(entries, incoming, max) == Seq::<(Seq<u8>, Seq<u8>)>::empty(),
    decreases entries.len(),
{
    if entries.len() > 0 {
        lemma_evict_all(entries.drop_last(), incoming, max);
    }
}

impl DynamicTable {
    /// The table's fields agree with its contents: the size is the total of
    /// the entries, at most the maximum, which is at most the limit.
    pub closed spec fn wf(&self) -> bool {
        &&& self.size as nat == entries_size(self@.entries)
        &&& self.size <= self.max_size <= self.hard_limit
    }

    /// A table never holds more than its maximum size, and the maximum
    /// never passes the limit that our settings put on it.
    pub proof fn lemma_within_max(&self)
        requires
            self.wf(),
        ensures
            entries_size(self@.entries) <= self@.max_size <= self@.hard_limit,
    {
    }

    pub fn new(max_size: usize) -> (r: Self)
        ensures
            r.wf(),
            r@ == (TableView { entries: Seq::empty(), max_size: max_size as nat, hard_limit: max_size as nat }),
    {
        let r = DynamicTable {
            entries: std::collections::VecDeque::new(),
            size: 0,
            max_size,
            hard_limit: max_size,
        };
        proof {
            assert(r@.entries =~= Seq::<(Seq<u8>, Seq<u8>)>::empty());
        }
        r
    }

    pub fn size(&self) -> (r: usize)
        requires
            self.wf(),
        ensures
            r == entries_size(self@.entries),
            r <= self@.max_size <= self@.hard_limit,
    {
        self.size
    }

    pub fn max_size(&self) -> (r: usize)
        ensures
            r == self@.max_size,
    {
        self.max_size
    }

    pub fn len(&self) -> (r: usize)
        ensures
            r == self@.entries.len(),
    {
        self.entries.len()
    }

    pub fn is_empty(&self) -> (r: bool)
        ensures
            r == (self@.entries.len() == 0),
    {
        self.entries.len() == 0
    }

    /// Sets the limit that SETTINGS_HEADER_TABLE_SIZE puts on the table;
    /// a larger maximum in force is brought down to it.
    pub fn set_hard_limit(&mut self, limit: usize)
        requires
            old(self).wf(),
        ensures
            final(self).wf(),
            final(self)@ == table_with_limit(old(self)@, limit as nat),
    {
        self.hard_limit = limit;
        if self.max_size > limit {
            self.apply_max_size(limit);
        }
    }

    fn apply_max_size(&mut self, new_max: usize)
        requires
            old(self).size as nat == entries_size(old(self)@.entries),
            new_max <= old(self).hard_limit,
        ensures
            final(self).wf(),
            final(self)@ == table_resize(old(self)@, new_max as nat),
    {
        self.max_size = new_max;
        self.evict_to_fit(0);
        proof {
            lemma_evict_keeps_newest(old(self)@.entries, 0, new_max as nat);
        }
    }

    /// A dynamic table size update: sets the maximum size, evicting the
    /// oldest entries until the rest fits; a compression error, with the
    /// table unchanged, above the limit.
    pub fn set_max_size(&mut self, new_max: usize) -> (r: H2Result<()>)
        requires
            old(self).wf(),
        ensures
            final(self).wf(),
            new_max > old(self)@.hard_limit ==> r == Err::<(), H2Error>(compression_failure())
                && final(self)@ == old(self)@,
            new_max <= old(self)@.hard_limit ==> r == Ok::<(), H2Error>(())
                && final(self)@ == table_resize(old(self)@, new_max as nat),
    {
        if new_max > self.hard_limit {
            return Err(H2Error::Connection(ErrorCode::CompressionError));
        }
        self.apply_max_size(new_max);
        Ok(())
    }

    fn evict_to_fit(&mut self, incoming: usize)
        requires
            old(self).size as nat == entries_size(old(self)@.entries),
        ensures
            final(self).size as nat == entries_size(final(self)@.entries),
            final(self).max_size == old(self).max_size,
            final(self).hard_limit == old(self).hard_limit,
            final(self)@.entries == evict(old(self)@.entries, incoming as nat, old(self).max_size as nat),
    {
        while incoming > self.max_size || self.size > self.max_size - incoming
            invariant
                self.size as nat == entries_size(self@.entries),
                self.max_size == old(self).max_size,
                self.hard_limit == old(self).hard_limit,
                evict(self@.entries, incoming as nat, self.max_size as nat) == evict(
                    old(self)@.entries,
                    incoming as nat,
                    old(self).max_size as nat,
                ),
            ensures
                self.size as nat == entries_size(self@.entries),
                self.max_size == old(self).max_size,
                self.hard_limit == old(self).hard_limit,
                evict(self@.entries, incoming as nat, self.max_size as nat) == evict(
                    old(self)@.entries,
                    incoming as nat,
                    old(self).max_size as nat,
                ),
                self@.entries.len() == 0 || entries_size(self@.entries) + incoming
                    <= self.max_size,
            decreases self@.entries.len(),
        {
            let ghost before = self@.entries;
            match self.entries.pop_back() {
                Some(dropped) => {
                    proof {
                        assert(self@.entries =~= before.drop_last());
                        assert(dropped@ == before.last());
                    }
                    self.size = self.size - dropped.size();
                },
                None => {
                    proof {
                        assert(before.len() == 0);
                        assert(self@.entries.len() == 0);
                    }
                    break ;
                },
            }
        }
        proof {
            if self@.entries.len() > 0 {
                assert(entries_size(self@.entries) + incoming <= self.max_size);
            }
        }
    }

    /// Adds a header field as the newest entry, evicting the oldest ones to
    /// make room; one larger than the whole table empties it and is not kept.
    pub fn insert(&mut self, header: Header)
        requires
            old(self).wf(),
        ensures
            final(self).wf(),
            final(self)@ == table_insert(old(self)@, header@),
    {
        let need = match header.name.len().checked_add(header.value.len()) {
            Some(n) => n.checked_add(ENTRY_OVERHEAD),
            None => None,
        };
        let need = match need {
            Some(n) => n,
            None => {
                // No table can hold a field whose size passes `usize::MAX`.
                proof {
                    lemma_evict_all(old(self)@.entries, entry_size(header@), self.max_size as nat);
                }
                self.entries.clear();
                self.size = 0;
                proof {
                    assert(self@.entries =~= Seq::<(Seq<u8>, Seq<u8>)>::empty());
                }
                return ;
            },
        };
        self.evict_to_fit(need);
        if need > self.max_size {
            proof {
                lemma_evict_keeps_newest(old(self)@.entries, need as nat, self.max_size as nat);
            }
            return ;
        }
        proof {
            lemma_evict_keeps_newest(old(self)@.entries, need as nat, self.max_size as nat);
            lemma_entries_size_prepend(header@, self@.entries);
        }
        self.size = self.size + need;
        let ghost before = self@.entries;
        self.entries.push_front(header);
        proof {
            assert(self@.entries =~= seq![header@] + before);
        }
    }

    /// The entry at position `index`, newest first.
    pub fn get(&self, index: usize) -> (r: Option<&Header>)
        ensures
            match r {
                Some(h) => index < self@.entries.len() && h@ == self@.entries[index as int],
                None => index >= self@.entries.len(),
            },
    {
        if index < self.entries.len() {
            Some(&self.entries[index])
        } else {
            None
        }
    }
}

/// The header field that an HPACK index stands for; a compression error
/// for index 0 or one past the end of the dynamic table.
pub fn lookup(dynamic: &DynamicTable, index: u32) -> (r: H2Result<Header>)
    ensures
        match table_lookup(dynamic@, index as nat) {
            Some(h) => r matches Ok(got) && got@ == h,
            None => r == Err::<Header, H2Error>(compression_failure()),
        },
{
    if index == 0 {
        return Err(H2Error::Connection(ErrorCode::CompressionError));
    }
    let i = index as usize;
    if i <= STATIC_TABLE.len() {
        let (name, value) = STATIC_TABLE[i - 1];
        return Ok(
            Header {
                name: vstd::slice::slice_to_vec(name.as_bytes()),
                value: vstd::slice::slice_to_vec(value.as_bytes()),
            },
        );
    }
    match dynamic.get(i - STATIC_TABLE.len() - 1) {
        Some(h) => Ok(h.copy()),
        None => Err(H2Error::Connection(ErrorCode::CompressionError)),
    }
}

/// A size update sets the table's maximum size to the size it gives, and
/// keeps the newest entries that fit in it, in order; the limit from our
/// settings stays as it was.
pub proof fn lemma_resize_sets_max(t: TableView, new_max: nat)
    ensures
        table_resize(t, new_max).max_size == new_max,
        table_resize(t, new_max).hard_limit == t.hard_limit,
        entries_size(table_resize(t, new_max).entries) <= new_max,
        table_resize(t, new_max).entries.len() <= t.entries.len(),
        table_resize(t, new_max).entries == t.entries.take(
            table_resize(t, new_max).entries.len() as int,
        ),
        entries_size(t.entries) <= new_max ==> table_resize(t, new_max).entries == t.entries,
{
    lemma_evict_keeps_newest(t.entries, 0, new_max);
    if t.entries.len() > 0 && entries_size(t.entries) <= new_max {
        assert(evict(t.entries, 0, new_max) == t.entries);
    }
}

/// The newest entry of the table is found at index 62, right after the
/// static table, as soon as it has been inserted.
pub proof fn lemma_inserted_is_index_62(t: TableView, h: (Seq<u8>, Seq<u8>))
    requires
        entry_size(h) <= t.max_size,
    ensures
        table_lookup(table_insert(t, h), 62) == Some(h),
        entries_size(table_insert(t, h).entries) <= t.max_size,
{
    lemma_evict_keeps_newest(t.entries, entry_size(h), t.max_size);
    lemma_entries_size_prepend(h, evict(t.entries, entry_size(h), t.max_size));
}

} // verus!
