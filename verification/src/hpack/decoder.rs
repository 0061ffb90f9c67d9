use vstd::prelude::*;

use crate::error::{compression_failure, ErrorCode, H2Error, H2Result};
use crate::hpack::huffman;
use crate::hpack::huffman::huffman_decode;
use crate::hpack::integer;
use crate::hpack::integer::decode_int;
use crate::hpack::table::{
    lookup, table_insert, table_lookup, table_resize, table_with_limit, DynamicTable, Header,
    TableView,
};

verus! {

/// A string literal at `pos` (RFC 7541 section 5.2): a length with a 7-bit
/// prefix whose high bit tells whether the octets are Huffman coded, then
/// the octets. Gives the string and the position after it.
pub open spec fn read_string_spec(block: Seq<u8>, pos: int) -> Option<(Seq<u8>, int)> {
    if pos < 0 || pos >= block.len() {
        None
    } else {
        match decode_int(block, pos, 7) {
            None => None,
            Some((len, next)) => {
                let end = next + len;
                if end > block.len() {
                    None
                } else {
                    let raw = block.subrange(next, end);
                    if block[pos] >= 0x80 {
                        match huffman_decode(raw) {
                            Some(s) => Some((s, end)),
                            None => None,
                        }
                    } else {
                        Some((raw, end))
                    }
                }
            },
        }
    }
}

/// The name of a literal field at `pos`: an index with an N-bit prefix,
/// naming a table entry, or 0 followed by a string literal.
pub open spec fn read_name_spec(t: TableView, block: Seq<u8>, pos: int, prefix_bits: u8) -> Option<
    (Seq<u8>, int),
> {
    match decode_int(block, pos, prefix_bits) {
        None => None,
        Some((index, next)) => if index == 0 {
            read_string_spec(block, next)
        } else {
            match table_lookup(t, index as nat) {
                Some(h) => Some((h.0, next)),
                None => None,
            }
        },
    }
}

/// What decoding a header block from `pos` on gives, with the table `t`
/// and the fields `out` decoded so far: the list of fields, or `None` on a
/// compression error, and the table as the decoder leaves it (the changes
/// made before an error stay). A size update is allowed only before the
/// first field of the block (RFC 7541 section 4.2).
pub open spec fn decode_fields(
    t: TableView,
    block: Seq<u8>,
    pos: int,
    allow_size_update: bool,
    out: Seq<(Seq<u8>, Seq<u8>)>,
) -> (Option<Seq<(Seq<u8>, Seq<u8>)>>, TableView)
    decreases block.len() - pos,
{
    if pos < 0 || pos >= block.len() {
        (Some(out), t)
    } else {
        let byte = block[pos];
        if byte >= 0x80 {
            // Indexed header field.
            match decode_int(block, pos, 7) {
                None => (None, t),
                Some((index, next)) => {
                    proof {
                        integer::lemma_decode_int_advances(block, pos, 7);
                    }
                    if index == 0 {
                        (None, t)
                    } else {
                        match table_lookup(t, index as nat) {
                            None => (None, t),
                            Some(h) => decode_fields(t, block, next, false, out.push(h)),
                        }
                    }
                },
            }
        } else if byte >= 0x40 {
            // Literal header field with incremental indexing.
            match read_name_spec(t, block, pos, 6) {
                None => (None, t),
                Some((name, next)) => {
                    proof {
                        lemma_read_name_advances(t, block, pos, 6);
                    }
                    match read_string_spec(block, next) {
                        None => (None, t),
                        Some((value, after)) => {
                            proof {
                                lemma_read_string_advances(block, next);
                            }
                            decode_fields(
                                table_insert(t, (name, value)),
                                block,
                                after,
                                false,
                                out.push((name, value)),
                            )
                        },
                    }
                },
            }
        } else if byte >= 0x20 {
            // Dynamic table size update.
            if !allow_size_update {
                (None, t)
            } else {
                match decode_int(block, pos, 5) {
                    None => (None, t),
                    Some((size, next)) => {
                        proof {
                            integer::lemma_decode_int_advances(block, pos, 5);
                        }
                        if size > t.hard_limit {
                            (None, t)
                        } else {
                            decode_fields(
                                table_resize(t, size as nat),
                                block,
                                next,
                                allow_size_update,
                                out,
                            )
                        }
                    },
                }
            }
        } else {
            // Literal header field without indexing, or never indexed.
            match read_name_spec(t, block, pos, 4) {
                None => (None, t),
                Some((name, next)) => {
                    proof {
                        lemma_read_name_advances(t, block, pos, 4);
                    }
                    match read_string_spec(block, next) {
                        None => (None, t),
                        Some((value, after)) => {
                            proof {
                                lemma_read_string_advances(block, next);
                            }
                            decode_fields(t, block, after, false, out.push((name, value)))
                        },
                    }
                },
            }
        }
    }
}

/// Decoding a whole header block with table `t`: the fields or `None`,
/// and the table afterwards.
pub open spec fn decode_block(t: TableView, block: Seq<u8>) -> (
    Option<Seq<(Seq<u8>, Seq<u8>)>>,
    TableView,
) {
    decode_fields(t, block, 0, true, Seq::empty())
}

pub proof fn lemma_read_string_advances(block: Seq<u8>, pos: int)
    ensures
        read_string_spec(block, pos) matches Some((s, end)) ==> pos < end <= block.len(),
{
    if 0 <= pos < block.len() {
        integer::lemma_decode_int_advances(block, pos, 7);
    }
}

pub proof fn lemma_read_name_advances(t: TableView, block: Seq<u8>, pos: int, prefix_bits: u8)
    requires
        1 <= prefix_bits <= 8,
    ensures
        read_name_spec(t, block, pos, prefix_bits) matches Some((s, end)) ==> pos < end
            <= block.len(),
{
    integer::lemma_decode_int_advances(block, pos, prefix_bits);
    if let Some((index, next)) = decode_int(block, pos, prefix_bits) {
        lemma_read_string_advances(block, next);
    }
}

/// The view of a list of header fields.
pub open spec fn headers_view(hs: Seq<Header>) -> Seq<(Seq<u8>, Seq<u8>)> {
    hs.map_values(|h: Header| h@)
}

fn compression_error<T>() -> (r: H2Result<T>)
    ensures
        r == Err::<T, H2Error>(compression_failure()),
{
    Err(H2Error::Connection(ErrorCode::CompressionError))
}

/// An HPACK decoder: a dynamic table that lives as long as the connection.
pub struct Decoder {
    table: DynamicTable,
}

impl View for Decoder {
    type V = TableView;

    closed spec fn view(&self) -> TableView {
        self.table@
    }
}

impl Decoder {
    pub closed spec fn wf(&self) -> bool {
        self.table.wf()
    }

    pub fn new(max_table_size: usize) -> (r: Self)
        ensures
            r.wf(),
            r@ == (TableView {
                entries: Seq::empty(),
                max_size: max_table_size as nat,
                hard_limit: max_table_size as nat,
            }),
    {
        Decoder { table: DynamicTable::new(max_table_size) }
    }

    pub fn table(&self) -> (r: &DynamicTable)
        ensures
            r@ == self@,
            self.wf() ==> r.wf(),
    {
        &self.table
    }

    /// Sets the limit that our SETTINGS_HEADER_TABLE_SIZE puts on the table.
    pub fn set_settings_limit(&mut self, limit: usize)
        requires
            old(self).wf(),
        ensures
            final(self).wf(),
            final(self)@ == table_with_limit(old(self)@, limit as nat),
    {
        self.table.set_hard_limit(limit);
    }

    fn read_string(&self, buf: &[u8], pos: usize) -> (r: H2Result<(Vec<u8>, usize)>)
        ensures
            match read_string_spec(buf@, pos as int) {
                Some((s, end)) => r matches Ok((v, e)) && v@ == s && e == end,
                None => r == Err::<(Vec<u8>, usize), H2Error>(compression_failure()),
            },
    {
        if pos >= buf.len() {
            return compression_error();
        }
        let huffman_coded = buf[pos] & 0x80 != 0;
        proof {
            let b = buf[pos as int];
            assert(b & 0x80 != 0 <==> b >= 0x80) by (bit_vector);
        }
        let (len, next) = integer::decode(buf, pos, 7)?;
        let len = len as usize;
        let end = match next.checked_add(len) {
            Some(e) => e,
            None => return compression_error(),
        };
        if end > buf.len() {
            return compression_error();
        }
        let raw = vstd::slice::slice_subrange(buf, next, end);
        if huffman_coded {
            let s = huffman::decode(raw)?;
            Ok((s, end))
        } else {
            Ok((vstd::slice::slice_to_vec(raw), end))
        }
    }

    fn read_name(&self, buf: &[u8], pos: usize, prefix_bits: u8) -> (r: H2Result<(Vec<u8>, usize)>)
        requires
            1 <= prefix_bits <= 8,
        ensures
            match read_name_spec(self@, buf@, pos as int, prefix_bits) {
                Some((s, end)) => r matches Ok((v, e)) && v@ == s && e == end,
                None => r == Err::<(Vec<u8>, usize), H2Error>(compression_failure()),
            },
    {
        let (index, next) = integer::decode(buf, pos, prefix_bits)?;
        if index == 0 {
            return self.read_string(buf, next);
        }
        let entry = lookup(&self.table, index)?;
        Ok((entry.name, next))
    }

    /// Decodes a header block (RFC 7541 section 3), updating the dynamic
    /// table as it goes; a compression error where the block is malformed.
    pub fn decode(&mut self, block: &[u8]) -> (r: H2Result<Vec<Header>>)
        requires
            old(self).wf(),
        ensures
            final(self).wf(),
            final(self)@ == decode_block(old(self)@, block@).1,
            match decode_block(old(self)@, block@).0 {
                Some(hs) => r matches Ok(v) && headers_view(v@) == hs,
                None => r == Err::<Vec<Header>, H2Error>(compression_failure()),
            },
    {
        let mut out: Vec<Header> = Vec::new();
        let mut pos: usize = 0;
        let mut allow_size_update = true;
        proof {
            assert(headers_view(out@) =~= Seq::<(Seq<u8>, Seq<u8>)>::empty());
        }
        while pos < block.len()
            invariant
                self.wf(),
                pos <= block.len(),
                decode_block(old(self)@, block@) == decode_fields(
                    self@,
                    block@,
                    pos as int,
                    allow_size_update,
                    headers_view(out@),
                ),
            decreases block.len() - pos,
        {
            let byte = block[pos];
            proof {
                assert(byte & 0x80 != 0 <==> byte >= 0x80) by (bit_vector);
                assert(byte < 0x80 ==> (byte & 0xc0 == 0x40 <==> byte >= 0x40)) by (bit_vector);
                assert(byte < 0x40 ==> (byte & 0xe0 == 0x20 <==> byte >= 0x20)) by (bit_vector);
            }
            if byte & 0x80 != 0 {
                let (index, next) = integer::decode(block, pos, 7)?;
                if index == 0 {
                    return compression_error();
                }
                let h = lookup(&self.table, index)?;
                proof {
                    assert(headers_view(out@.push(h)) =~= headers_view(out@).push(h@));
                }
                out.push(h);
                pos = next;
                allow_size_update = false;
                continue ;
            }
            if byte & 0xc0 == 0x40 {
                let (name, next) = self.read_name(block, pos, 6)?;
                let (value, after) = self.read_string(block, next)?;
                proof {
                    lemma_read_name_advances(self@, block@, pos as int, 6);
                    lemma_read_string_advances(block@, next as int);
                }
                let header = Header { name, value };
                self.table.insert(header.copy());
                proof {
                    assert(headers_view(out@.push(header)) =~= headers_view(out@).push(header@));
                }
                out.push(header);
                pos = after;
                allow_size_update = false;
                continue ;
            }
            if byte & 0xe0 == 0x20 {
                if !allow_size_update {
                    return compression_error();
                }
                let (size, next) = integer::decode(block, pos, 5)?;
                self.table.set_max_size(size as usize)?;
                pos = next;
                continue ;
            }
            let prefix_bits: u8 = 4;
            let (name, next) = self.read_name(block, pos, prefix_bits)?;
            let (value, after) = self.read_string(block, next)?;
            proof {
                lemma_read_name_advances(self@, block@, pos as int, 4);
                lemma_read_string_advances(block@, next as int);
            }
            let header = Header { name, value };
            proof {
                assert(headers_view(out@.push(header)) =~= headers_view(out@).push(header@));
            }
            out.push(header);
            pos = after;
            allow_size_update = false;
        }
        Ok(out)
    }
}

} // verus!
