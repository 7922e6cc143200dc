//! Index records: the layout of one named sequence inside the file.

use crate::layout::layout_byte;
use vstd::prelude::*;

verus! {

/// Mathematical model of an index record.
pub struct RecordModel {
    pub name: Seq<u8>,
    pub length: nat,
    pub offset: nat,
    pub line_bases: nat,
    pub line_width: nat,
}

impl RecordModel {
    /// Bytes from the first residue to just after the last residue, with no
    /// trailing terminator.
    pub open spec fn end_in_bytes(self) -> nat {
        (self.length / self.line_bases) * self.line_width + self.length % self.line_bases
    }

    /// Absolute position of the first byte after the record's last residue.
    pub open spec fn end_byte(self) -> int {
        self.offset + self.end_in_bytes() as int
    }

    /// Absolute position of residue `i` (0-based) of the record.
    pub open spec fn residue_byte(self, i: int) -> int {
        layout_byte(self.offset as int, self.line_bases as int, self.line_width as int, i)
    }

    /// Residues per full line are positive, a line is at least as wide as its
    /// residues, and the whole record is addressable with 64-bit offsets.
    pub open spec fn wf(self) -> bool {
        &&& self.line_bases > 0
        &&& self.line_width >= self.line_bases
        &&& self.end_byte() <= u64::MAX
    }
}

/// One entry of a sequence index: name, residue count, offset of the first
/// residue, residues per line and bytes per line (terminators included).
#[derive(Debug)]
pub struct IndexRecord {
    name: Vec<u8>,
    length: u64,
    offset: u64,
    line_bases: u64,
    line_width: u64,
}

impl View for IndexRecord {
    type V = RecordModel;

    closed spec fn view(&self) -> RecordModel {
        RecordModel {
            name: self.name@,
            length: self.length as nat,
            offset: self.offset as nat,
            line_bases: self.line_bases as nat,
            line_width: self.line_width as nat,
        }
    }
}

impl IndexRecord {
    #[verifier::type_invariant]
    spec fn inv(self) -> bool {
        self@.wf()
    }

    /// Builds a record, or `None` when its geometry is not well formed.
    pub fn new(name: Vec<u8>, length: u64, offset: u64, line_bases: u64, line_width: u64) -> (r:
        Option<IndexRecord>)
        ensures
            r is Some <==> (RecordModel {
                name: name@,
                length: length as nat,
                offset: offset as nat,
                line_bases: line_bases as nat,
                line_width: line_width as nat,
            }).wf(),
            r is Some ==> r->0@ == (RecordModel {
                name: name@,
                length: length as nat,
                offset: offset as nat,
                line_bases: line_bases as nat,
                line_width: line_width as nat,
            }),
    {
        if line_bases == 0 || line_width < line_bases {
            return None;
        }
        let full_lines = length / line_bases;
        let remainder = length % line_bases;
        let room = u64::MAX - offset;
        // full_lines * line_width + remainder <= room, checked without overflow
        if full_lines > 0 && line_width > room / full_lines {
            proof {
                assert(full_lines * line_width > room) by (nonlinear_arith)
                    requires full_lines > 0, line_width > room / full_lines;
            }
            return None;
        }
        proof {
            assert(full_lines * line_width <= room) by (nonlinear_arith)
                requires full_lines == 0 || line_width <= room / full_lines;
        }
        let bytes = full_lines * line_width;
        if remainder > room - bytes {
            return None;
        }
        Some(IndexRecord { name, length, offset, line_bases, line_width })
    }

    /// The record's name.
    pub fn name(&self) -> (r: &[u8])
        ensures
            r@ == self@.name,
    {
        self.name.as_slice()
    }

    /// Residue count of the record.
    pub fn length(&self) -> (r: u64)
        ensures
            r == self@.length,
            self@.wf(),
    {
        proof {
            use_type_invariant(self);
        }
        self.length
    }

    /// Offset of the first residue in the file.
    pub fn offset(&self) -> (r: u64)
        ensures
            r == self@.offset,
            self@.wf(),
    {
        proof {
            use_type_invariant(self);
        }
        self.offset
    }

    /// Residues per full line.
    pub fn line_bases(&self) -> (r: u64)
        ensures
            r == self@.line_bases,
            self@.wf(),
    {
        proof {
            use_type_invariant(self);
        }
        self.line_bases
    }

    /// Bytes per full line, terminator included.
    pub fn line_width(&self) -> (r: u64)
        ensures
            r == self@.line_width,
            self@.wf(),
    {
        proof {
            use_type_invariant(self);
        }
        self.line_width
    }

    /// Bytes from the first residue to just after the last one, excluding any
    /// trailing terminator.
    pub fn end_in_bytes(&self) -> (r: u64)
        ensures
            r == self@.end_in_bytes(),
            self@.wf(),
    {
        proof {
            use_type_invariant(self);
        }
        let full_lines = self.length / self.line_bases;
        proof {
            assert(full_lines * self.line_width <= full_lines * self.line_width + self.length
                % self.line_bases);
        }
        full_lines * self.line_width + self.length % self.line_bases
    }

    /// Absolute position of the first byte after the record's last residue.
    pub fn end_byte(&self) -> (r: u64)
        ensures
            r == self@.end_byte(),
            self@.wf(),
    {
        let e = self.end_in_bytes();
        self.offset + e
    }
}

} // verus!
