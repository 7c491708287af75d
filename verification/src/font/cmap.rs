//! CMaps for Type 0 fonts: splitting a string into character codes and
//! mapping each to a CID. The two Identity CMaps are built in; embedded
//! CMap streams are parsed (`codespacerange`, `cidrange`, `cidchar`,
//! `usecmap` of Identity). Other predefined CMaps need tables this crate
//! does not carry, so they are reported as unsupported and the font is
//! left alone.
use vstd::prelude::*;

use crate::bytes;
use crate::content::operations;
use crate::content::operations::{decode_strict, Operand, OperandView, Operation, OperationView};
use crate::object::{Value, ValueView};
use crate::text;

verus! {

/// The codes of one length that are codes at all.
#[derive(Debug, Clone, Copy, PartialEq, Eq, Structural)]
pub struct Codespace {
    pub bytes: usize,
    pub low: u32,
    pub high: u32,
}

/// The CIDs of a run of codes of one length.
#[derive(Debug, Clone, Copy, PartialEq, Eq, Structural)]
pub struct Range {
    pub bytes: usize,
    pub low: u32,
    pub high: u32,
    pub cid: u32,
}

#[derive(Debug, PartialEq, Eq)]
pub struct CMap {
    codespaces: Vec<Codespace>,
    ranges: Vec<Range>,
    identity: bool,
}

/// What a CMap holds.
pub struct CMapView {
    pub codespaces: Seq<Codespace>,
    pub ranges: Seq<Range>,
    /// A code that no range holds is its own CID, not CID 0.
    pub identity: bool,
}

impl View for CMap {
    type V = CMapView;

    closed spec fn view(&self) -> CMapView {
        CMapView {
            codespaces: self.codespaces@,
            ranges: self.ranges@,
            identity: self.identity,
        }
    }
}

/// The big-endian number that bytes spell.
pub open spec fn be_value(s: Seq<u8>) -> nat
    decreases s.len(),
{
    if s.len() == 0 {
        0
    } else {
        be_value(s.drop_last()) * 256 + s.last() as nat
    }
}

/// A code given as a PDF string of one to four bytes: its value and length.
pub open spec fn code_of(v: ValueView) -> Option<(u32, usize)> {
    match v {
        ValueView::String(s, _) => if 1 <= s.len() <= 4 {
            Some((be_value(s) as u32, s.len() as usize))
        } else {
            None
        },
        _ => None,
    }
}

/// A CID operand: an integer, or a string holding one big-endian.
pub open spec fn cid_of(v: ValueView) -> Option<u32> {
    match v {
        ValueView::Integer(i) => if 0 <= i <= u32::MAX {
            Some(i as u32)
        } else {
            None
        },
        ValueView::String(_, _) => match code_of(v) {
            Some((cid, _)) => Some(cid),
            None => None,
        },
        _ => None,
    }
}

/// The codespaces that pairs of operands from `i` on give.
pub open spec fn codespaces_from(o: Seq<OperandView>, i: int) -> Option<Seq<Codespace>>
    decreases o.len() - i,
{
    if i < 0 || i + 2 > o.len() {
        Some(Seq::empty())
    } else {
        match (code_of(o[i].value), code_of(o[i + 1].value), codespaces_from(o, i + 2)) {
            (Some((low, bytes)), Some((high, _)), Some(rest)) => Some(
                seq![Codespace { bytes, low, high }] + rest,
            ),
            _ => None,
        }
    }
}

/// The ranges that triples of operands from `i` on give.
pub open spec fn ranges_from(o: Seq<OperandView>, i: int) -> Option<Seq<Range>>
    decreases o.len() - i,
{
    if i < 0 || i + 3 > o.len() {
        Some(Seq::empty())
    } else {
        match (
            code_of(o[i].value),
            code_of(o[i + 1].value),
            cid_of(o[i + 2].value),
            ranges_from(o, i + 3),
        ) {
            (Some((low, bytes)), Some((high, _)), Some(cid), Some(rest)) => Some(
                seq![Range { bytes, low, high, cid }] + rest,
            ),
            _ => None,
        }
    }
}

/// The one-code ranges that pairs of operands from `i` on give.
pub open spec fn singles_from(o: Seq<OperandView>, i: int) -> Option<Seq<Range>>
    decreases o.len() - i,
{
    if i < 0 || i + 2 > o.len() {
        Some(Seq::empty())
    } else {
        match (code_of(o[i].value), cid_of(o[i + 1].value), singles_from(o, i + 2)) {
            (Some((code, bytes)), Some(cid), Some(rest)) => Some(
                seq![Range { bytes, low: code, high: code, cid }] + rest,
            ),
            _ => None,
        }
    }
}

/// Two-byte codes, each its own CID.
pub open spec fn identity_view() -> CMapView {
    CMapView {
        codespaces: seq![Codespace { bytes: 2, low: 0, high: 0xFFFF }],
        ranges: Seq::empty(),
        identity: true,
    }
}

/// The predefined CMap of a name.
pub open spec fn predefined_view(name: Seq<u8>) -> Option<CMapView> {
    if name == bytes::text("Identity-H"@) || name == bytes::text("Identity-V"@) {
        Some(identity_view())
    } else {
        None
    }
}

/// What one operation makes of a CMap.
pub open spec fn after_operation(c: CMapView, op: OperationView) -> Option<CMapView> {
    if op.operator == "endcodespacerange"@ {
        match codespaces_from(op.operands, 0) {
            Some(more) => Some(CMapView { codespaces: c.codespaces + more, ..c }),
            None => None,
        }
    } else if op.operator == "endcidrange"@ || op.operator == "endbfrange"@ {
        match ranges_from(op.operands, 0) {
            Some(more) => Some(CMapView { ranges: c.ranges + more, ..c }),
            None => None,
        }
    } else if op.operator == "endcidchar"@ || op.operator == "endbfchar"@ {
        match singles_from(op.operands, 0) {
            Some(more) => Some(CMapView { ranges: c.ranges + more, ..c }),
            None => None,
        }
    } else if op.operator == "usecmap"@ {
        if op.operands.len() == 0 {
            None
        } else {
            match op.operands[0].value {
                ValueView::Name(name) => match predefined_view(name) {
                    Some(parent) => Some(
                        CMapView {
                            codespaces: c.codespaces + parent.codespaces,
                            identity: parent.identity,
                            ..c
                        },
                    ),
                    None => None,
                },
                _ => None,
            }
        }
    } else {
        Some(c)
    }
}

/// What the operations from `i` on make of a CMap.
pub open spec fn after_operations(c: CMapView, ops: Seq<OperationView>, i: int) -> Option<CMapView>
    decreases ops.len() - i,
{
    if i < 0 || i >= ops.len() {
        Some(c)
    } else {
        match after_operation(c, ops[i]) {
            Some(next) => after_operations(next, ops, i + 1),
            None => None,
        }
    }
}

/// Some range has codes of this length.
pub open spec fn has_length(ranges: Seq<Range>, bytes: int) -> bool {
    exists|i: int| 0 <= i < ranges.len() && (#[trigger] ranges[i]).bytes == bytes
}

/// One codespace over all codes of each length, from `bytes` to four, that
/// the ranges use.
pub open spec fn whole_codespaces(ranges: Seq<Range>, bytes: int) -> Seq<Codespace>
    decreases 5 - bytes,
{
    if bytes < 1 || bytes > 4 {
        Seq::empty()
    } else if has_length(ranges, bytes) {
        seq![
            Codespace {
                bytes: bytes as usize,
                low: 0,
                high: if bytes == 1 {
                    0xFF
                } else if bytes == 2 {
                    0xFFFF
                } else if bytes == 3 {
                    0xFF_FFFF
                } else {
                    0xFFFF_FFFF
                },
            },
        ] + whole_codespaces(ranges, bytes + 1)
    } else {
        whole_codespaces(ranges, bytes + 1)
    }
}

/// A CMap without codespaces gets those of its ranges; `None` where it has
/// neither.
pub open spec fn completed(c: CMapView) -> Option<CMapView> {
    if c.codespaces.len() > 0 {
        Some(c)
    } else {
        let spaces = whole_codespaces(c.ranges, 1);
        if spaces.len() == 0 {
            None
        } else {
            Some(CMapView { codespaces: spaces, ..c })
        }
    }
}

/// The CMap that operations define.
pub open spec fn defined_by(ops: Seq<OperationView>) -> Option<CMapView> {
    let empty = CMapView { codespaces: Seq::empty(), ranges: Seq::empty(), identity: false };
    match after_operations(empty, ops, 0) {
        Some(c) => completed(c),
        None => None,
    }
}

/// A codespace of this length holds the code.
pub open spec fn in_codespace(c: CMapView, code: u32, bytes: int) -> bool {
    exists|i: int|
        0 <= i < c.codespaces.len() && (#[trigger] c.codespaces[i]).bytes == bytes
            && c.codespaces[i].low <= code <= c.codespaces[i].high
}

/// How many bytes the next code of `s` takes, trying lengths from `bytes` up:
/// the shortest prefix that a codespace holds. None where no codespace does.
pub open spec fn code_length(c: CMapView, s: Seq<u8>, bytes: int) -> Option<int>
    decreases 5 - bytes,
{
    if bytes < 1 || bytes > 4 || bytes > s.len() {
        None
    } else if in_codespace(c, be_value(s.take(bytes)) as u32, bytes) {
        Some(bytes)
    } else {
        code_length(c, s, bytes + 1)
    }
}

/// The first range of this length, from `i` on, that holds the code.
pub open spec fn range_at(ranges: Seq<Range>, code: u32, bytes: int, i: int) -> Option<Range>
    decreases ranges.len() - i,
{
    if i < 0 || i >= ranges.len() {
        None
    } else if ranges[i].bytes == bytes && ranges[i].low <= code <= ranges[i].high {
        Some(ranges[i])
    } else {
        range_at(ranges, code, bytes, i + 1)
    }
}

/// The CID of a code, counted modulo the range of CIDs.
pub open spec fn cid_for(c: CMapView, code: u32, bytes: int) -> u32 {
    match range_at(c.ranges, code, bytes, 0) {
        Some(r) => ((r.cid + (code - r.low)) % 0x1_0000_0000) as u32,
        None => if c.identity {
            code
        } else {
            0
        },
    }
}

/// The CIDs that a string selects from position `i` on. A code that falls in no
/// codespace takes one byte and maps to CID 0.
pub open spec fn cids_from(c: CMapView, s: Seq<u8>, i: int) -> Seq<u32>
    decreases s.len() - i,
{
    if i < 0 || i >= s.len() {
        Seq::empty()
    } else {
        match code_length(c, s.skip(i), 1) {
            Some(n) => if n <= 0 || i + n > s.len() {
                Seq::empty()
            } else {
                seq![cid_for(c, be_value(s.subrange(i, i + n)) as u32, n)] + cids_from(c, s, i + n)
            },
            None => seq![0u32] + cids_from(c, s, i + 1),
        }
    }
}

/// Every code is of one to four bytes.
pub open spec fn lengths_ok(c: CMapView) -> bool {
    forall|i: int|
        0 <= i < c.codespaces.len() ==> 1 <= (#[trigger] c.codespaces[i]).bytes <= 4
}

proof fn lemma_be_value(s: Seq<u8>)
    requires
        s.len() <= 4,
    ensures
        be_value(s) <= 0xFFFF_FFFF,
        s.len() <= 3 ==> be_value(s) <= 0xFF_FFFF,
        s.len() <= 2 ==> be_value(s) <= 0xFFFF,
        s.len() <= 1 ==> be_value(s) <= 0xFF,
        s.len() == 0 ==> be_value(s) == 0,
    decreases s.len(),
{
    if s.len() > 0 {
        lemma_be_value(s.drop_last());
    }
}

/// The big-endian number that the bytes `from..to` spell.
fn be_number(s: &[u8], from: usize, to: usize) -> (r: u32)
    requires
        from <= to <= s.len(),
        to - from <= 4,
    ensures
        r == be_value(s@.subrange(from as int, to as int)),
{
    let mut r: u32 = 0;
    let mut i: usize = from;
    assert(s@.subrange(from as int, from as int) =~= Seq::empty());
    while i < to
        invariant
            from <= i <= to <= s.len(),
            to - from <= 4,
            r == be_value(s@.subrange(from as int, i as int)),
        decreases to - i,
    {
        proof {
            let next = s@.subrange(from as int, i + 1);
            assert(next.drop_last() =~= s@.subrange(from as int, i as int));
            lemma_be_value(s@.subrange(from as int, i as int));
        }
        r = r * 256 + s[i] as u32;
        i += 1;
    }
    r
}

fn code_bytes(v: &Value) -> (r: Option<(u32, usize)>)
    ensures
        r == code_of(v@),
        match r {
            Some((_, n)) => 1 <= n <= 4,
            None => true,
        },
{
    match v {
        Value::String(s, _) => {
            if s.len() == 0 || s.len() > 4 {
                return None;
            }
            let code = be_number(s, 0, s.len());
            assert(s@.subrange(0, s@.len() as int) =~= s@);
            Some((code, s.len()))
        },
        _ => None,
    }
}

fn cid_operand(v: &Value) -> (r: Option<u32>)
    ensures
        r == cid_of(v@),
{
    match v {
        Value::Integer(i) => if *i >= 0 && *i <= 0xFFFF_FFFF {
            Some(*i as u32)
        } else {
            None
        },
        Value::String(_, _) => match code_bytes(v) {
            Some((cid, _)) => Some(cid),
            None => None,
        },
        _ => None,
    }
}

fn read_codespaces(operands: &Vec<Operand>) -> (r: Option<Vec<Codespace>>)
    ensures
        match r {
            Some(v) => codespaces_from(operands@.map_values(|o: Operand| o@), 0) == Some(v@)
                && forall|i: int| 0 <= i < v@.len() ==> 1 <= (#[trigger] v@[i]).bytes <= 4,
            None => codespaces_from(operands@.map_values(|o: Operand| o@), 0) is None,
        },
{
    let ghost o = operands@.map_values(|o: Operand| o@);
    let mut out: Vec<Codespace> = Vec::new();
    let mut i: usize = 0;
    proof {
        if let Some(rest) = codespaces_from(o, 0) {
            assert(Seq::<Codespace>::empty() + rest =~= rest);
        }
    }
    while operands.len() - i >= 2
        invariant
            i <= operands.len(),
            o == operands@.map_values(|o: Operand| o@),
            forall|k: int| 0 <= k < out@.len() ==> 1 <= (#[trigger] out@[k]).bytes <= 4,
            codespaces_from(o, 0) == match codespaces_from(o, i as int) {
                Some(rest) => Some(out@ + rest),
                None => None,
            },
        decreases operands.len() - i,
    {
        assert(o[i as int] == operands@[i as int]@ && o[i + 1] == operands@[i + 1]@);
        let (low, bytes) = code_bytes(&operands[i].value)?;
        let (high, _) = code_bytes(&operands[i + 1].value)?;
        let space = Codespace { bytes, low, high };
        proof {
            if let Some(rest) = codespaces_from(o, i + 2) {
                assert(out@ + (seq![space] + rest) =~= out@.push(space) + rest);
            }
        }
        out.push(space);
        i += 2;
    }
    assert(out@ + Seq::<Codespace>::empty() =~= out@);
    Some(out)
}

fn read_ranges(operands: &Vec<Operand>) -> (r: Option<Vec<Range>>)
    ensures
        match r {
            Some(v) => ranges_from(operands@.map_values(|o: Operand| o@), 0) == Some(v@)
                && forall|i: int| 0 <= i < v@.len() ==> 1 <= (#[trigger] v@[i]).bytes <= 4,
            None => ranges_from(operands@.map_values(|o: Operand| o@), 0) is None,
        },
{
    let ghost o = operands@.map_values(|o: Operand| o@);
    let mut out: Vec<Range> = Vec::new();
    let mut i: usize = 0;
    proof {
        if let Some(rest) = ranges_from(o, 0) {
            assert(Seq::<Range>::empty() + rest =~= rest);
        }
    }
    while operands.len() - i >= 3
        invariant
            i <= operands.len(),
            o == operands@.map_values(|o: Operand| o@),
            forall|k: int| 0 <= k < out@.len() ==> 1 <= (#[trigger] out@[k]).bytes <= 4,
            ranges_from(o, 0) == match ranges_from(o, i as int) {
                Some(rest) => Some(out@ + rest),
                None => None,
            },
        decreases operands.len() - i,
    {
        assert(o[i as int] == operands@[i as int]@ && o[i + 1] == operands@[i + 1]@ && o[i + 2]
            == operands@[i + 2]@);
        let (low, bytes) = code_bytes(&operands[i].value)?;
        let (high, _) = code_bytes(&operands[i + 1].value)?;
        let cid = cid_operand(&operands[i + 2].value)?;
        let range = Range { bytes, low, high, cid };
        proof {
            if let Some(rest) = ranges_from(o, i + 3) {
                assert(out@ + (seq![range] + rest) =~= out@.push(range) + rest);
            }
        }
        out.push(range);
        i += 3;
    }
    assert(out@ + Seq::<Range>::empty() =~= out@);
    Some(out)
}

fn read_singles(operands: &Vec<Operand>) -> (r: Option<Vec<Range>>)
    ensures
        match r {
            Some(v) => singles_from(operands@.map_values(|o: Operand| o@), 0) == Some(v@)
                && forall|i: int| 0 <= i < v@.len() ==> 1 <= (#[trigger] v@[i]).bytes <= 4,
            None => singles_from(operands@.map_values(|o: Operand| o@), 0) is None,
        },
{
    let ghost o = operands@.map_values(|o: Operand| o@);
    let mut out: Vec<Range> = Vec::new();
    let mut i: usize = 0;
    proof {
        if let Some(rest) = singles_from(o, 0) {
            assert(Seq::<Range>::empty() + rest =~= rest);
        }
    }
    while operands.len() - i >= 2
        invariant
            i <= operands.len(),
            o == operands@.map_values(|o: Operand| o@),
            forall|k: int| 0 <= k < out@.len() ==> 1 <= (#[trigger] out@[k]).bytes <= 4,
            singles_from(o, 0) == match singles_from(o, i as int) {
                Some(rest) => Some(out@ + rest),
                None => None,
            },
        decreases operands.len() - i,
    {
        assert(o[i as int] == operands@[i as int]@ && o[i + 1] == operands@[i + 1]@);
        let (code, bytes) = code_bytes(&operands[i].value)?;
        let cid = cid_operand(&operands[i + 1].value)?;
        let range = Range { bytes, low: code, high: code, cid };
        proof {
            if let Some(rest) = singles_from(o, i + 2) {
                assert(out@ + (seq![range] + rest) =~= out@.push(range) + rest);
            }
        }
        out.push(range);
        i += 2;
    }
    assert(out@ + Seq::<Range>::empty() =~= out@);
    Some(out)
}

impl CMap {
    /// Every code is of one to four bytes.
    pub open spec fn wf(self) -> bool {
        lengths_ok(self@)
    }

    /// Identity-H / Identity-V: two-byte codes, CID = code.
    pub fn identity() -> (r: CMap)
        ensures
            r@ == identity_view(),
            r.wf(),
    {
        let mut codespaces: Vec<Codespace> = Vec::new();
        codespaces.push(Codespace { bytes: 2, low: 0, high: 0xFFFF });
        let r = CMap { codespaces, ranges: Vec::new(), identity: true };
        assert(r@.codespaces =~= identity_view().codespaces);
        assert(r@.ranges =~= identity_view().ranges);
        r
    }

    /// A predefined CMap by name; only the Identity ones are known.
    pub fn predefined(name: &[u8]) -> (r: Option<CMap>)
        ensures
            match r {
                Some(c) => predefined_view(name@) == Some(c@) && c.wf(),
                None => predefined_view(name@) is None,
            },
    {
        if bytes::is_text(name, "Identity-H") || bytes::is_text(name, "Identity-V") {
            Some(CMap::identity())
        } else {
            None
        }
    }

    /// Takes one operation of a CMap stream in; `None` where it is malformed.
    fn take(self, op: &Operation) -> (r: Option<CMap>)
        requires
            self.wf(),
        ensures
            match r {
                Some(c) => after_operation(self@, op@) == Some(c@) && c.wf(),
                None => after_operation(self@, op@) is None,
            },
    {
        let mut c = self;
        if text::is(&op.operator, "endcodespacerange") {
            let mut more = read_codespaces(&op.operands)?;
            c.codespaces.append(&mut more);
        } else if text::is(&op.operator, "endcidrange") || text::is(&op.operator, "endbfrange") {
            // `bfrange` and `bfchar` belong in ToUnicode CMaps, but
            // producers use them in encoding CMaps too, with the
            // destination string read as a big-endian CID.
            let mut more = read_ranges(&op.operands)?;
            c.ranges.append(&mut more);
        } else if text::is(&op.operator, "endcidchar") || text::is(&op.operator, "endbfchar") {
            let mut more = read_singles(&op.operands)?;
            c.ranges.append(&mut more);
        } else if text::is(&op.operator, "usecmap") {
            if op.operands.len() == 0 {
                return None;
            }
            assert(op@.operands[0] == op.operands@[0]@);
            let name = op.operands[0].value.as_name()?;
            let mut parent = CMap::predefined(name)?;
            c.codespaces.append(&mut parent.codespaces);
            c.identity = parent.identity;
        }
        Some(c)
    }

    /// Gives a CMap without codespaces those of its ranges.
    fn complete(self) -> (r: Option<CMap>)
        requires
            self.wf(),
        ensures
            match r {
                Some(c) => completed(self@) == Some(c@) && c.wf(),
                None => completed(self@) is None,
            },
    {
        let mut c = self;
        if c.codespaces.len() > 0 {
            return Some(c);
        }
        // Codespace ranges are required; without them fall back to the
        // byte lengths the mappings themselves use.
        let mut bytes: usize = 1;
        assert(c.codespaces@ + whole_codespaces(c.ranges@, 1) =~= whole_codespaces(c.ranges@, 1));
        while bytes <= 4
            invariant
                1 <= bytes <= 5,
                c.ranges@ == self@.ranges,
                c.identity == self@.identity,
                c.wf(),
                c.codespaces@ + whole_codespaces(c.ranges@, bytes as int) == whole_codespaces(
                    c.ranges@,
                    1,
                ),
            decreases 5 - bytes,
        {
            if c.uses_length(bytes) {
                let high: u32 = if bytes == 1 {
                    0xFF
                } else if bytes == 2 {
                    0xFFFF
                } else if bytes == 3 {
                    0xFF_FFFF
                } else {
                    0xFFFF_FFFF
                };
                let space = Codespace { bytes, low: 0, high };
                assert(c.codespaces@ + (seq![space] + whole_codespaces(c.ranges@, bytes + 1))
                    =~= c.codespaces@.push(space) + whole_codespaces(c.ranges@, bytes + 1));
                let ghost before = c@.codespaces;
                c.codespaces.push(space);
                assert forall|k: int| 0 <= k < c@.codespaces.len() implies 1 <= (
                #[trigger] c@.codespaces[k]).bytes <= 4 by {
                    if k < before.len() {
                        assert(c@.codespaces[k] == before[k]);
                    }
                }
            }
            bytes += 1;
        }
        assert(c.codespaces@ + Seq::<Codespace>::empty() =~= c.codespaces@);
        if c.codespaces.len() == 0 {
            return None;
        }
        Some(c)
    }

    fn uses_length(&self, bytes: usize) -> (r: bool)
        ensures
            r == has_length(self@.ranges, bytes as int),
    {
        let mut i: usize = 0;
        while i < self.ranges.len()
            invariant
                i <= self.ranges.len(),
                forall|k: int| 0 <= k < i ==> (#[trigger] self.ranges@[k]).bytes != bytes,
            decreases self.ranges.len() - i,
        {
            if self.ranges[i].bytes == bytes {
                assert(self@.ranges[i as int].bytes == bytes);
                return true;
            }
            i += 1;
        }
        false
    }

    /// The CMap that operations define, or `None` where one of them is
    /// malformed or they define no code.
    pub fn from_operations(ops: &Vec<Operation>) -> (r: Option<CMap>)
        ensures
            match r {
                Some(c) => defined_by(operations::operations_view(ops@)) == Some(c@) && c.wf(),
                None => defined_by(operations::operations_view(ops@)) is None,
            },
    {
        let ghost view = operations::operations_view(ops@);
        let mut c = CMap { codespaces: Vec::new(), ranges: Vec::new(), identity: false };
        let ghost empty = CMapView {
            codespaces: Seq::empty(),
            ranges: Seq::empty(),
            identity: false,
        };
        assert(c@.codespaces =~= empty.codespaces && c@.ranges =~= empty.ranges);
        let mut i: usize = 0;
        while i < ops.len()
            invariant
                i <= ops.len(),
                c.wf(),
                view == operations::operations_view(ops@),
                after_operations(empty, view, 0) == after_operations(c@, view, i as int),
                empty == (CMapView {
                    codespaces: Seq::empty(),
                    ranges: Seq::empty(),
                    identity: false,
                }),
            decreases ops.len() - i,
        {
            assert(view[i as int] == ops@[i as int]@);
            c = c.take(&ops[i])?;
            i += 1;
        }
        c.complete()
    }

    /// Parses an embedded CMap stream's content.
    pub fn parse(content: &[u8]) -> (r: Option<CMap>)
        ensures
            match r {
                Some(c) => operations::strict_operations(content@) is Some && defined_by(
                    operations::strict_operations(content@)->0,
                ) == Some(c@) && c.wf(),
                None => operations::strict_operations(content@) is None || defined_by(
                    operations::strict_operations(content@)->0,
                ) is None,
            },
    {
        let ops = decode_strict(content)?;
        CMap::from_operations(&ops)
    }

    /// The CIDs a string selects. Codes that fall in no codespace consume
    /// one byte (as readers do) and map to CID 0.
    pub fn cids(&self, string: &[u8]) -> (r: Vec<u32>)
        requires
            self.wf(),
        ensures
            r@ == cids_from(self@, string@, 0),
    {
        let mut out: Vec<u32> = Vec::new();
        let mut i: usize = 0;
        assert(out@ + cids_from(self@, string@, 0) =~= cids_from(self@, string@, 0));
        while i < string.len()
            invariant
                i <= string.len(),
                self.wf(),
                out@ + cids_from(self@, string@, i as int) == cids_from(self@, string@, 0),
            decreases string.len() - i,
        {
            let (cid, bytes) = match self.next_code(string, i) {
                Some(bytes) => (self.cid(be_number(string, i, i + bytes), bytes), bytes),
                None => (0, 1),
            };
            assert(out@ + (seq![cid] + cids_from(self@, string@, i + bytes)) =~= out@.push(cid)
                + cids_from(self@, string@, i + bytes));
            out.push(cid);
            i += bytes;
        }
        assert(out@ + Seq::<u32>::empty() =~= out@);
        out
    }

    fn holds_code(&self, code: u32, bytes: usize) -> (r: bool)
        ensures
            r == in_codespace(self@, code, bytes as int),
    {
        let ghost spaces = self@.codespaces;
        let mut i: usize = 0;
        while i < self.codespaces.len()
            invariant
                i <= self.codespaces.len(),
                spaces == self@.codespaces,
                forall|k: int|
                    0 <= k < i ==> !((#[trigger] spaces[k]).bytes == bytes && spaces[k].low
                        <= code <= spaces[k].high),
            decreases self.codespaces.len() - i,
        {
            let c = self.codespaces[i];
            if c.bytes == bytes && c.low <= code && code <= c.high {
                assert(spaces[i as int] == c);
                return true;
            }
            i += 1;
        }
        false
    }

    /// How many bytes the code at `at` takes, where a codespace holds it.
    fn next_code(&self, s: &[u8], at: usize) -> (r: Option<usize>)
        requires
            at < s.len(),
        ensures
            match r {
                Some(n) => code_length(self@, s@.skip(at as int), 1) == Some(n as int) && 1 <= n
                    <= 4 && at + n <= s.len(),
                None => code_length(self@, s@.skip(at as int), 1) is None,
            },
    {
        let ghost rest = s@.skip(at as int);
        // Try each byte length in increasing order; the first codespace
        // that contains the prefix wins.
        let mut bytes: usize = 1;
        while bytes <= 4 && bytes <= s.len() - at
            invariant
                1 <= bytes <= 5,
                at < s.len(),
                rest == s@.skip(at as int),
                code_length(self@, rest, 1) == code_length(self@, rest, bytes as int),
            decreases 5 - bytes,
        {
            let code = be_number(s, at, at + bytes);
            assert(s@.subrange(at as int, at + bytes) =~= rest.take(bytes as int));
            if self.holds_code(code, bytes) {
                return Some(bytes);
            }
            bytes += 1;
        }
        None
    }

    fn cid(&self, code: u32, bytes: usize) -> (r: u32)
        ensures
            r == cid_for(self@, code, bytes as int),
    {
        let ghost ranges = self@.ranges;
        let mut i: usize = 0;
        while i < self.ranges.len()
            invariant
                i <= self.ranges.len(),
                ranges == self@.ranges,
                range_at(ranges, code, bytes as int, 0) == range_at(
                    ranges,
                    code,
                    bytes as int,
                    i as int,
                ),
            decreases self.ranges.len() - i,
        {
            let r = self.ranges[i];
            assert(ranges[i as int] == r);
            if r.bytes == bytes && r.low <= code && code <= r.high {
                return r.cid.wrapping_add(code - r.low);
            }
            i += 1;
        }
        if self.identity {
            code
        } else {
            0
        }
    }
}

/// Under the Identity CMap the bytes pair up from position `i` on: each pair is
/// its own CID, and a byte left over at the end maps to CID 0.
pub proof fn identity_pairs_up(s: Seq<u8>, i: int)
    requires
        0 <= i <= s.len(),
    ensures
        cids_from(identity_view(), s, i).len() == (s.len() - i + 1) / 2,
        forall|k: int|
            0 <= k < (s.len() - i) / 2 ==> #[trigger] cids_from(identity_view(), s, i)[k] == s[i + 2
                * k] * 256 + s[i + 2 * k + 1],
        (s.len() - i) % 2 == 1 ==> cids_from(identity_view(), s, i).last() == 0,
    decreases s.len() - i,
{
    if i < s.len() {
        let c = identity_view();
        let rest = s.skip(i);
        let all = cids_from(c, s, i);
        assert(!in_codespace(c, be_value(rest.take(1)) as u32, 1));
        if i + 1 == s.len() {
            assert(code_length(c, rest, 1) is None) by {
                reveal_with_fuel(code_length, 3);
            }
            assert(cids_from(c, s, i + 1) =~= Seq::empty());
            assert(all =~= seq![0u32]);
        } else {
            lemma_be_value(rest.take(2));
            assert(c.codespaces[0].bytes == 2);
            assert(in_codespace(c, be_value(rest.take(2)) as u32, 2));
            assert(code_length(c, rest, 1) == Some(2int)) by {
                reveal_with_fuel(code_length, 3);
            }
            identity_pairs_up(s, i + 2);
            let after = cids_from(c, s, i + 2);
            let pair = s.subrange(i, i + 2);
            assert(be_value(pair) == s[i] * 256 + s[i + 1]) by {
                reveal_with_fuel(be_value, 3);
                assert(pair.drop_last().drop_last() =~= Seq::empty());
            }
            assert(range_at(c.ranges, be_value(pair) as u32, 2, 0) is None);
            assert(all =~= seq![(s[i] * 256 + s[i + 1]) as u32] + after);
            assert forall|k: int| 0 <= k < (s.len() - i) / 2 implies #[trigger] all[k] == s[i + 2
                * k] * 256 + s[i + 2 * k + 1] by {
                if k > 0 {
                    assert(all[k] == after[k - 1]);
                }
            }
        }
    }
}

proof fn lemma_operators()
    ensures
        "endcodespacerange"@.len() == 17,
        "endcidrange"@.len() == 11,
        "endcidrange"@[3] == 'c',
        "endbfrange"@.len() == 10,
        "endbfrange"@[5] == 'r',
        "endcidchar"@.len() == 10,
        "endcidchar"@[5] == 'd',
        "endbfchar"@.len() == 9,
        "usecmap"@.len() == 7,
{
    reveal_strlit("endcodespacerange");
    reveal_strlit("endcidrange");
    reveal_strlit("endbfrange");
    reveal_strlit("endcidchar");
    reveal_strlit("endbfchar");
    reveal_strlit("usecmap");
}

/// The number that bytes spell has the first of them as its highest digit.
pub proof fn codes_are_big_endian(a: u8, b: u8, c: u8, d: u8)
    ensures
        be_value(seq![a]) == a,
        be_value(seq![a, b]) == 256 * a + b,
        be_value(seq![a, b, c]) == 65536 * a + 256 * b + c,
        be_value(seq![a, b, c, d]) == 16777216 * a + 65536 * b + 256 * c + d,
{
    assert(seq![a].drop_last() =~= Seq::<u8>::empty());
    assert(be_value(seq![a]) == be_value(Seq::<u8>::empty()) * 256 + a);
    assert(seq![a, b].drop_last() =~= seq![a]);
    assert(seq![a, b, c].drop_last() =~= seq![a, b]);
    assert(seq![a, b, c, d].drop_last() =~= seq![a, b, c]);
}

proof fn lemma_range_at(ranges: Seq<Range>, code: u32, bytes: int, from: int, i: int)
    requires
        0 <= from <= i < ranges.len(),
        ranges[i].bytes == bytes && ranges[i].low <= code <= ranges[i].high,
        forall|j: int|
            from <= j < i ==> !((#[trigger] ranges[j]).bytes == bytes && ranges[j].low <= code
                <= ranges[j].high),
    ensures
        range_at(ranges, code, bytes, from) == Some(ranges[i]),
    decreases i - from,
{
    if from < i {
        assert(!(ranges[from].bytes == bytes && ranges[from].low <= code <= ranges[from].high));
        lemma_range_at(ranges, code, bytes, from + 1, i);
    }
}

/// Whether a CMap maps a code through one of its ranges.
pub open spec fn mapped(c: CMapView, code: u32, bytes: int) -> bool {
    exists|j: int|
        0 <= j < c.ranges.len() && (#[trigger] c.ranges[j]).bytes == bytes && c.ranges[j].low
            <= code <= c.ranges[j].high
}

/// A range of codes maps them to CIDs one after the other from the one that it
/// gives, where no range before it holds the code.
pub proof fn ranges_count_up(
    c: CMapView,
    op: OperationView,
    low: Seq<u8>,
    high: Seq<u8>,
    cid: i64,
    k: int,
)
    requires
        op.operands.len() == 3,
        op.operands[0].value matches ValueView::String(s, _) && s == low,
        op.operands[1].value matches ValueView::String(s, _) && s == high,
        op.operands[2].value == ValueView::Integer(cid),
        1 <= low.len() <= 4,
        1 <= high.len() <= 4,
        be_value(low) <= u32::MAX,
        be_value(high) <= u32::MAX,
        op.operator == "endcidrange"@ || op.operator == "endbfrange"@,
        0 <= cid,
        0 <= k,
        be_value(low) + k <= be_value(high),
        cid + k <= u32::MAX,
        !mapped(c, (be_value(low) + k) as u32, low.len() as int),
    ensures
        after_operation(c, op) matches Some(after) && cid_for(
            after,
            (be_value(low) + k) as u32,
            low.len() as int,
        ) == cid + k,
{
    lemma_operators();
    let code = (be_value(low) + k) as u32;
    assert(ranges_from(op.operands, 3) == Some(Seq::<Range>::empty()));
    let more = ranges_from(op.operands, 0)->0;
    assert(more.len() == 1);
    let all = c.ranges + more;
    let at = c.ranges.len() as int;
    assert(all[at] == more[0]);
    assert forall|j: int| 0 <= j < at implies !((#[trigger] all[j]).bytes == low.len()
        && all[j].low <= code <= all[j].high) by {
        assert(all[j] == c.ranges[j]);
    }
    lemma_range_at(all, code, low.len() as int, 0, at);
}

/// One code maps to the CID that is given with it, where no range before
/// holds the code.
pub proof fn single_codes_map(c: CMapView, op: OperationView, code: Seq<u8>, cid: i64)
    requires
        op.operands.len() == 2,
        op.operands[0].value matches ValueView::String(s, _) && s == code,
        op.operands[1].value == ValueView::Integer(cid),
        1 <= code.len() <= 4,
        be_value(code) <= u32::MAX,
        op.operator == "endcidchar"@ || op.operator == "endbfchar"@,
        0 <= cid <= u32::MAX,
        !mapped(c, be_value(code) as u32, code.len() as int),
    ensures
        after_operation(c, op) matches Some(after) && cid_for(
            after,
            be_value(code) as u32,
            code.len() as int,
        ) == cid,
{
    lemma_operators();
    let n = be_value(code) as u32;
    assert(singles_from(op.operands, 2) == Some(Seq::<Range>::empty()));
    let more = singles_from(op.operands, 0)->0;
    assert(more.len() == 1);
    let all = c.ranges + more;
    let at = c.ranges.len() as int;
    assert(all[at] == more[0]);
    assert forall|j: int| 0 <= j < at implies !((#[trigger] all[j]).bytes == code.len()
        && all[j].low <= n <= all[j].high) by {
        assert(all[j] == c.ranges[j]);
    }
    lemma_range_at(all, n, code.len() as int, 0, at);
}

/// A codespace range makes the codes from its low to its high end codes of
/// their length, and no others.
pub proof fn codespaces_hold_their_codes(
    c: CMapView,
    op: OperationView,
    low: Seq<u8>,
    high: Seq<u8>,
    code: u32,
    bytes: int,
)
    requires
        op.operands.len() == 2,
        op.operands[0].value matches ValueView::String(s, _) && s == low,
        op.operands[1].value matches ValueView::String(s, _) && s == high,
        1 <= low.len() <= 4,
        1 <= high.len() <= 4,
        be_value(low) <= u32::MAX,
        be_value(high) <= u32::MAX,
        op.operator == "endcodespacerange"@,
    ensures
        after_operation(c, op) matches Some(after) && (in_codespace(after, code, bytes)
            <==> in_codespace(c, code, bytes) || (bytes == low.len() && be_value(low) <= code
            <= be_value(high))),
{
    lemma_operators();
    assert(codespaces_from(op.operands, 2) == Some(Seq::<Codespace>::empty()));
    let more = codespaces_from(op.operands, 0)->0;
    assert(more.len() == 1);
    let after = after_operation(c, op)->0;
    let at = c.codespaces.len() as int;
    assert(after.codespaces[at] == more[0]);
    if in_codespace(c, code, bytes) {
        let i = choose|i: int|
            0 <= i < c.codespaces.len() && (#[trigger] c.codespaces[i]).bytes == bytes
                && c.codespaces[i].low <= code <= c.codespaces[i].high;
        assert(after.codespaces[i] == c.codespaces[i]);
    }
    if in_codespace(after, code, bytes) {
        let i = choose|i: int|
            0 <= i < after.codespaces.len() && (#[trigger] after.codespaces[i]).bytes == bytes
                && after.codespaces[i].low <= code <= after.codespaces[i].high;
        if i < at {
            assert(after.codespaces[i] == c.codespaces[i]);
        }
    }
}

/// The highest code that so many bytes spell.
spec fn highest(bytes: int) -> int {
    if bytes == 1 {
        255
    } else if bytes == 2 {
        65535
    } else if bytes == 3 {
        16777215
    } else {
        4294967295
    }
}

proof fn lemma_whole(ranges: Seq<Range>, from: int, bytes: int)
    requires
        1 <= from <= bytes <= 4,
        has_length(ranges, bytes),
    ensures
        exists|i: int|
            0 <= i < whole_codespaces(ranges, from).len() && (#[trigger] whole_codespaces(
                ranges,
                from,
            )[i]).bytes == bytes && whole_codespaces(ranges, from)[i].low == 0 && whole_codespaces(
                ranges,
                from,
            )[i].high == highest(bytes),
    decreases bytes - from,
{
    let all = whole_codespaces(ranges, from);
    if from == bytes {
        assert(all[0].bytes == bytes);
    } else {
        lemma_whole(ranges, from + 1, bytes);
        let rest = whole_codespaces(ranges, from + 1);
        let i = choose|i: int|
            0 <= i < rest.len() && (#[trigger] rest[i]).bytes == bytes && rest[i].low == 0
                && rest[i].high == highest(bytes);
        if has_length(ranges, from) {
            assert(all[i + 1] == rest[i]);
        } else {
            assert(all[i] == rest[i]);
        }
    }
}

/// A CMap without codespaces reads every code of each length that its ranges
/// use: any that so many bytes can spell.
pub proof fn missing_codespaces_hold_all_codes(c: CMapView, i: int, code: u32)
    requires
        c.codespaces.len() == 0,
        0 <= i < c.ranges.len(),
        1 <= c.ranges[i].bytes <= 4,
        c.ranges[i].bytes == 1 ==> code < 256,
        c.ranges[i].bytes == 2 ==> code < 65536,
        c.ranges[i].bytes == 3 ==> code < 16777216,
    ensures
        completed(c) matches Some(after) && in_codespace(after, code, c.ranges[i].bytes as int)
            && after.ranges == c.ranges,
{
    let bytes = c.ranges[i].bytes as int;
    assert(has_length(c.ranges, bytes));
    lemma_whole(c.ranges, 1, bytes);
    let all = whole_codespaces(c.ranges, 1);
    let k = choose|k: int|
        0 <= k < all.len() && (#[trigger] all[k]).bytes == bytes && all[k].low == 0 && all[k].high
            == highest(bytes);
    let after = completed(c)->0;
    assert(after.codespaces[k].bytes == bytes);
}

/// A string starts with the code that the shortest prefix in a codespace
/// spells, and goes on behind it.
pub proof fn shortest_codes_come_first(c: CMapView, s: Seq<u8>, n: int)
    requires
        1 <= n <= 4,
        n <= s.len(),
        in_codespace(c, be_value(s.take(n)) as u32, n),
        forall|m: int|
            1 <= m < n ==> !(#[trigger] in_codespace(c, be_value(s.take(m)) as u32, m)),
    ensures
        cids_from(c, s, 0) == seq![cid_for(c, be_value(s.take(n)) as u32, n)] + cids_from(c, s, n),
{
    assert(s.skip(0) =~= s);
    assert(s.subrange(0, n) =~= s.take(n));
    lemma_length(c, s, 1, n);
}

proof fn lemma_length(c: CMapView, s: Seq<u8>, from: int, n: int)
    requires
        1 <= from <= n <= 4,
        n <= s.len(),
        in_codespace(c, be_value(s.take(n)) as u32, n),
        forall|m: int|
            from <= m < n ==> !(#[trigger] in_codespace(c, be_value(s.take(m)) as u32, m)),
    ensures
        code_length(c, s, from) == Some(n),
    decreases n - from,
{
    if from < n {
        assert(!in_codespace(c, be_value(s.take(from)) as u32, from));
        lemma_length(c, s, from + 1, n);
    }
}

} // verus!
