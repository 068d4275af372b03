//! The barcode index and the annotation of records against it.

use crate::error::JoinError;
use crate::interner::{
    has_room, intern_id, interned, lemma_interned, valid_table, PrimaryKeyMap, MAX_ENTRIES,
};
use crate::readname::{
    encode_table, encoded_key, lemma_encode_again, name_to_readname_key, room_for_key,
    well_formed_name,
};
use crate::text::{after, before, has_prefix, push_char, split_once, starts_with, views};
use std::collections::HashMap;
use vstd::prelude::*;
use vstd::string::{StrSliceExecFns, StringExecFns};

verus! {

broadcast use vstd::std_specs::hash::group_hash_axioms;

/// The tag that marks a recognised barcode.
pub open spec fn barcode_tag() -> Seq<char> {
    seq!['B', 'C', ':', 'Z', ':']
}

/// The tag that wraps any other comment.
pub open spec fn other_tag() -> Seq<char> {
    seq!['X', 'C', ':', 'Z', ':']
}

/// The annotation appended where no barcode is known.
pub open spec fn unknown_annotation() -> Seq<char> {
    other_tag() + seq!['U', 'N', 'K', 'N', 'O', 'W', 'N']
}

/// Whether a raw comment carries one of the two recognised read-number prefixes.
pub open spec fn has_barcode_prefix(raw: Seq<char>) -> bool {
    starts_with(raw, seq!['1', ':', 'N', ':', '0', ':']) || starts_with(
        raw,
        seq!['2', ':', 'N', ':', '0', ':'],
    )
}

/// The annotation stored for a raw comment.
pub open spec fn annotation_text(raw: Seq<char>) -> Seq<char> {
    if has_barcode_prefix(raw) {
        barcode_tag() + raw.subrange(6, raw.len() as int)
    } else {
        other_tag() + raw
    }
}

/// The composite key as one 64-bit number, 16 bits per field.
pub open spec fn pack(k: Seq<u16>) -> u64 {
    (k[0] as int * 0x1_0000_0000_0000 + k[1] as int * 0x1_0000_0000 + k[2] as int * 0x1_0000
        + k[3] as int) as u64
}

/// Packing loses nothing: two keys with the same number are the same key.
pub proof fn lemma_pack_injective(a: Seq<u16>, b: Seq<u16>)
    requires
        a.len() == 4,
        b.len() == 4,
        pack(a) == pack(b),
    ensures
        a == b,
{
    assert(a =~= b);
}

/// The key packed into one number.
pub fn pack_key(k: &[u16; 4]) -> (r: u64)
    ensures
        r == pack(k@),
{
    (k[0] as u64) * 0x1_0000_0000_0000 + (k[1] as u64) * 0x1_0000_0000 + (k[2] as u64) * 0x1_0000
        + (k[3] as u64)
}

/// The annotation for a raw comment, and whether the comment was a recognised barcode.
pub fn derive_annotation(raw: &str) -> (r: (String, bool))
    ensures
        r.0@ == annotation_text(raw@),
        r.1 == has_barcode_prefix(raw@),
{
    proof {
        reveal_strlit("1:N:0:");
        reveal_strlit("2:N:0:");
        reveal_strlit("BC:Z:");
        reveal_strlit("XC:Z:");
    }
    let first = has_prefix(raw, "1:N:0:");
    let second = has_prefix(raw, "2:N:0:");
    assert("1:N:0:"@ =~= seq!['1', ':', 'N', ':', '0', ':']);
    assert("2:N:0:"@ =~= seq!['2', ':', 'N', ':', '0', ':']);
    if first || second {
        let mut out = String::from_str("BC:Z:");
        let n = raw.unicode_len();
        out.append(raw.substring_char(6, n));
        assert(out@ =~= annotation_text(raw@));
        (out, true)
    } else {
        let mut out = String::from_str("XC:Z:");
        out.append(raw);
        assert(out@ =~= annotation_text(raw@));
        (out, false)
    }
}

/// The state of a join: the two interners and the index from packed key to annotation.
pub struct JoinModel {
    pub parts: Seq<Seq<char>>,
    pub comments: Seq<Seq<char>>,
    pub index: Map<u64, u16>,
}

/// Every identifier in the index names an interned annotation.
pub open spec fn valid_model(m: JoinModel) -> bool {
    &&& valid_table(m.parts)
    &&& valid_table(m.comments)
    &&& forall|k: u64| #[trigger] m.index.contains_key(k) ==> m.index[k] < m.comments.len()
}

/// What a barcode line holds: nothing (a blank line), a recognised barcode, or another
/// comment.
#[derive(Debug, Clone, Copy, PartialEq, Eq, Structural)]
pub enum Recorded {
    Blank,
    Barcode,
    Unrecognized,
}

/// The join after taking in one barcode line `<read name> <comment>`, or why it cannot.
pub open spec fn barcode_step(m: JoinModel, line: Seq<char>) -> Result<
    (JoinModel, Recorded),
    JoinError,
> {
    if line.len() == 0 {
        Ok((m, Recorded::Blank))
    } else if !line.contains(' ') {
        Err(JoinError::MissingComment)
    } else {
        let name = before(line, ' ');
        let raw = after(line, ' ');
        let c = annotation_text(raw);
        if !well_formed_name(name) {
            Err(JoinError::MalformedReadName)
        } else if !room_for_key(m.parts, name) || !has_room(m.comments, c) {
            Err(JoinError::TableFull)
        } else {
            let id = intern_id(m.comments, c) as u16;
            let k = pack(encoded_key(m.parts, name));
            if m.index.contains_key(k) && m.index[k] != id {
                Err(JoinError::Conflict { old_comment: m.index[k], new_comment: id })
            } else {
                let m2 = JoinModel {
                    parts: encode_table(m.parts, name),
                    comments: interned(m.comments, c),
                    index: m.index.insert(k, id),
                };
                Ok((m2, if has_barcode_prefix(raw) { Recorded::Barcode } else { Recorded::Unrecognized }))
            }
        }
    }
}

/// A comment with a recognised read-number prefix is stored as the barcode tag followed by
/// the rest of the comment.
pub proof fn lemma_barcode_prefix_stripped(rest: Seq<char>)
    ensures
        annotation_text(seq!['1', ':', 'N', ':', '0', ':'] + rest) == barcode_tag() + rest,
        annotation_text(seq!['2', ':', 'N', ':', '0', ':'] + rest) == barcode_tag() + rest,
{
    let a = seq!['1', ':', 'N', ':', '0', ':'] + rest;
    let b = seq!['2', ':', 'N', ':', '0', ':'] + rest;
    assert(a.subrange(0, 6) =~= seq!['1', ':', 'N', ':', '0', ':']);
    assert(b.subrange(0, 6) =~= seq!['2', ':', 'N', ':', '0', ':']);
    assert(a.subrange(6, a.len() as int) =~= rest);
    assert(b.subrange(6, b.len() as int) =~= rest);
}

/// Taking in a barcode line stores, under its read's key, the annotation derived from its
/// comment, and says whether the comment was a recognised barcode.
pub proof fn lemma_stored_annotation(m: JoinModel, line: Seq<char>)
    requires
        valid_model(m),
        line.len() > 0,
        barcode_step(m, line) is Ok,
    ensures
        ({
            let (m1, kind) = barcode_step(m, line)->Ok_0;
            let k = pack(encoded_key(m.parts, before(line, ' ')));
            let raw = after(line, ' ');
            &&& m1.index.contains_key(k)
            &&& m1.comments[m1.index[k] as int] == annotation_text(raw)
            &&& kind == if has_barcode_prefix(raw) {
                Recorded::Barcode
            } else {
                Recorded::Unrecognized
            }
        }),
{
    let c = annotation_text(after(line, ' '));
    lemma_interned(m.comments, c);
}

/// A read key takes one annotation only. After a barcode line is taken in, another line
/// for the same read name whose annotation differs is a conflict that names both
/// annotations; one whose annotation is the same is taken in and changes nothing.
pub proof fn lemma_conflict_fatal(m: JoinModel, l1: Seq<char>, l2: Seq<char>)
    requires
        valid_model(m),
        l1.contains(' '),
        l2.contains(' '),
        before(l1, ' ') == before(l2, ' '),
        barcode_step(m, l1) is Ok,
    ensures
        ({
            let m1 = barcode_step(m, l1)->Ok_0.0;
            let k = pack(encoded_key(m.parts, before(l1, ' ')));
            let c1 = annotation_text(after(l1, ' '));
            let c2 = annotation_text(after(l2, ' '));
            &&& c1 == c2 ==> barcode_step(m1, l2) is Ok && barcode_step(m1, l2)->Ok_0.0 == m1
            &&& c1 != c2 && has_room(m1.comments, c2) ==> {
                &&& barcode_step(m1, l2) == Err::<(JoinModel, Recorded), JoinError>(
                    JoinError::Conflict {
                        old_comment: m1.index[k],
                        new_comment: intern_id(m1.comments, c2) as u16,
                    },
                )
                &&& m1.comments[m1.index[k] as int] == c1
                &&& interned(m1.comments, c2)[intern_id(m1.comments, c2)] == c2
            }
        }),
{
    let name = before(l1, ' ');
    let c1 = annotation_text(after(l1, ' '));
    let c2 = annotation_text(after(l2, ' '));
    let m1 = barcode_step(m, l1)->Ok_0.0;
    let k = pack(encoded_key(m.parts, name));
    lemma_encode_again(m.parts, name);
    lemma_interned(m.comments, c1);
    let id1 = intern_id(m.comments, c1);
    assert(m1.index[k] == id1 as u16);
    if c1 == c2 {
        assert(interned(m1.comments, c1) == m1.comments);
        assert(m1.index.insert(k, id1 as u16) =~= m1.index);
    } else if has_room(m1.comments, c2) {
        lemma_interned(m1.comments, c2);
        let id2 = intern_id(m1.comments, c2);
        assert(interned(m1.comments, c2)[id1] == c1);
        assert(id1 != id2);
    }
}

/// What to do with a record whose read has no barcode.
#[derive(Debug, Clone, Copy, PartialEq, Eq, Structural)]
pub enum UnmatchedPolicy {
    /// Append the unknown-marker annotation.
    Fallback,
    /// Emit the record unchanged.
    PassThrough,
    /// Emit nothing for the record.
    Skip,
}

/// What is worth reporting about one annotated record.
#[derive(Debug, Clone, Copy, PartialEq, Eq, Structural)]
pub enum Diagnostic {
    Clean,
    /// The annotation found does not carry the barcode tag.
    UnexpectedTag,
    /// No barcode is known for the record's read.
    Unmatched,
}

/// The outcome for one record: the line to emit, if any, and what to report.
pub struct Annotated {
    pub output: Option<String>,
    pub diagnostic: Diagnostic,
}

/// What an optional string holds.
pub open spec fn text_of(o: Option<String>) -> Option<Seq<char>> {
    match o {
        Some(s) => Some(s@),
        None => None,
    }
}

/// Whether a record line is a header, passed through as it is.
pub open spec fn is_header(line: Seq<char>) -> bool {
    line.len() > 0 && line[0] == '@'
}

/// The read name looked up for a data line: its first tab-separated field, with the '@'
/// that barcode read names carry.
pub open spec fn lookup_name(line: Seq<char>) -> Seq<char> {
    seq!['@'] + before(line, '\t')
}

/// What a record whose read has no barcode becomes.
pub open spec fn unmatched_output(line: Seq<char>, policy: UnmatchedPolicy) -> Option<Seq<char>> {
    match policy {
        UnmatchedPolicy::Fallback => Some(line + seq!['\t'] + unknown_annotation()),
        UnmatchedPolicy::PassThrough => Some(line),
        UnmatchedPolicy::Skip => None,
    }
}

/// Annotating one record: the read-name table afterwards, the line emitted, and what is
/// reported; or why the record cannot be annotated.
pub open spec fn annotate_step(m: JoinModel, line: Seq<char>, policy: UnmatchedPolicy) -> Result<
    (Seq<Seq<char>>, Option<Seq<char>>, Diagnostic),
    JoinError,
> {
    if is_header(line) {
        Ok((m.parts, Some(line), Diagnostic::Clean))
    } else {
        let name = lookup_name(line);
        if !well_formed_name(name) {
            Err(JoinError::MalformedReadName)
        } else if !room_for_key(m.parts, name) {
            Err(JoinError::TableFull)
        } else {
            let parts = encode_table(m.parts, name);
            let k = pack(encoded_key(m.parts, name));
            if m.index.contains_key(k) {
                let c = m.comments[m.index[k] as int];
                let d = if starts_with(c, barcode_tag()) {
                    Diagnostic::Clean
                } else {
                    Diagnostic::UnexpectedTag
                };
                Ok((parts, Some(line + seq!['\t'] + c), d))
            } else {
                Ok((parts, unmatched_output(line, policy), Diagnostic::Unmatched))
            }
        }
    }
}

/// The join with its read-name table replaced.
pub open spec fn with_parts(m: JoinModel, parts: Seq<Seq<char>>) -> JoinModel {
    JoinModel { parts: parts, comments: m.comments, index: m.index }
}

/// Annotating the records `lines` in order: the read-name table afterwards and, for each
/// record in turn, the line emitted and what is reported; or the first failure.
pub open spec fn annotate_all(m: JoinModel, lines: Seq<Seq<char>>, policy: UnmatchedPolicy) -> Result<
    (Seq<Seq<char>>, Seq<(Option<Seq<char>>, Diagnostic)>),
    JoinError,
>
    decreases lines.len(),
{
    if lines.len() == 0 {
        Ok((m.parts, Seq::empty()))
    } else {
        match annotate_all(m, lines.drop_last(), policy) {
            Err(e) => Err(e),
            Ok((parts, outs)) => match annotate_step(with_parts(m, parts), lines.last(), policy) {
                Err(e) => Err(e),
                Ok((parts2, out, d)) => Ok((parts2, outs.push((out, d)))),
            },
        }
    }
}

/// What each outcome emits and reports.
pub open spec fn outcomes(v: Seq<Annotated>) -> Seq<(Option<Seq<char>>, Diagnostic)> {
    v.map_values(|a: Annotated| (text_of(a.output), a.diagnostic))
}

/// Once annotating a prefix of the records fails, annotating all of them fails the same way.
proof fn lemma_annotate_all_stops(
    m: JoinModel,
    lines: Seq<Seq<char>>,
    n: int,
    policy: UnmatchedPolicy,
)
    requires
        0 <= n <= lines.len(),
        annotate_all(m, lines.subrange(0, n), policy) is Err,
    ensures
        annotate_all(m, lines, policy) == annotate_all(m, lines.subrange(0, n), policy),
    decreases lines.len(),
{
    if n == lines.len() {
        assert(lines.subrange(0, n) =~= lines);
    } else {
        assert(lines.drop_last().subrange(0, n) =~= lines.subrange(0, n));
        lemma_annotate_all_stops(m, lines.drop_last(), n, policy);
    }
}

/// One record's outcome: an emitted line begins with the record, a header is emitted as it
/// is, and a line is emitted for every record unless the policy skips unmatched ones.
proof fn lemma_step_shape(m: JoinModel, line: Seq<char>, policy: UnmatchedPolicy)
    requires
        annotate_step(m, line, policy) is Ok,
    ensures
        ({
            let out = annotate_step(m, line, policy)->Ok_0.1;
            &&& out is Some ==> starts_with(out->Some_0, line)
            &&& is_header(line) ==> out == Some(line)
            &&& policy != UnmatchedPolicy::Skip ==> out is Some
        }),
{
    let out = annotate_step(m, line, policy)->Ok_0.1;
    if out is Some {
        let o = out->Some_0;
        if !is_header(line) {
            assert(o.subrange(0, line.len() as int) =~= line);
        } else {
            assert(o.subrange(0, line.len() as int) =~= line);
        }
    }
}

/// Records keep their order: annotating `lines` gives one outcome per record, in the
/// records' order; each emitted line begins with its record; headers are emitted as they
/// are; and unless unmatched records are skipped, every record emits a line.
pub proof fn lemma_order_preserved(m: JoinModel, lines: Seq<Seq<char>>, policy: UnmatchedPolicy)
    requires
        annotate_all(m, lines, policy) is Ok,
    ensures
        ({
            let outs = annotate_all(m, lines, policy)->Ok_0.1;
            &&& outs.len() == lines.len()
            &&& forall|i: int|
                0 <= i < lines.len() && (#[trigger] outs[i]).0 is Some ==> starts_with(
                    outs[i].0->Some_0,
                    lines[i],
                )
            &&& forall|i: int|
                0 <= i < lines.len() && is_header(#[trigger] lines[i]) ==> outs[i].0 == Some(
                    lines[i],
                )
            &&& policy != UnmatchedPolicy::Skip ==> forall|i: int|
                0 <= i < lines.len() ==> (#[trigger] outs[i]).0 is Some
        }),
    decreases lines.len(),
{
    if lines.len() > 0 {
        lemma_order_preserved(m, lines.drop_last(), policy);
        let (parts, prev) = annotate_all(m, lines.drop_last(), policy)->Ok_0;
        lemma_step_shape(with_parts(m, parts), lines.last(), policy);
        let outs = annotate_all(m, lines, policy)->Ok_0.1;
        assert forall|i: int| 0 <= i < lines.len() - 1 implies outs[i] == prev[i]
            && lines[i] == lines.drop_last()[i] by {}
    }
}

/// The two interners and the barcode index of one run.
pub struct BarcodeJoin {
    readname_parts: PrimaryKeyMap,
    comments: PrimaryKeyMap,
    index: HashMap<u64, u16>,
}

impl View for BarcodeJoin {
    type V = JoinModel;

    closed spec fn view(&self) -> JoinModel {
        JoinModel { parts: self.readname_parts@, comments: self.comments@, index: self.index@ }
    }
}

impl BarcodeJoin {
    /// Both interners are well formed, and the index names only interned annotations.
    pub closed spec fn wf(&self) -> bool {
        &&& self.readname_parts.wf()
        &&& self.comments.wf()
        &&& valid_model(self@)
    }

    /// A join with no barcodes yet.
    pub fn new() -> (r: BarcodeJoin)
        ensures
            r.wf(),
            r@.parts.len() == 0,
            r@.comments.len() == 0,
            r@.index == Map::<u64, u16>::empty(),
    {
        BarcodeJoin {
            readname_parts: PrimaryKeyMap::new(),
            comments: PrimaryKeyMap::new(),
            index: HashMap::new(),
        }
    }

    /// The number of read keys with a barcode.
    pub fn index_len(&self) -> (r: usize)
        requires
            self.wf(),
        ensures
            r == self@.index.len(),
    {
        self.index.len()
    }

    /// The number of distinct read-name fields interned.
    pub fn readname_parts_len(&self) -> (r: usize)
        requires
            self.wf(),
        ensures
            r == self@.parts.len(),
    {
        self.readname_parts.len()
    }

    /// The number of distinct annotations interned.
    pub fn comments_len(&self) -> (r: usize)
        requires
            self.wf(),
        ensures
            r == self@.comments.len(),
    {
        self.comments.len()
    }

    /// Takes in one barcode line `<read name> <comment>`: the read's key gets the
    /// annotation derived from the comment. A key given a different annotation before is
    /// a conflict, and leaves the index as it was.
    pub fn add_barcode_line(&mut self, line: &str) -> (r: Result<Recorded, JoinError>)
        requires
            old(self).wf(),
        ensures
            final(self).wf(),
            match barcode_step(old(self)@, line@) {
                Ok((m, kind)) => r == Ok::<Recorded, JoinError>(kind) && final(self)@ == m,
                Err(e) => r == Err::<Recorded, JoinError>(e) && final(self)@.index == old(
                    self,
                )@.index,
            },
    {
        if line.is_empty() {
            return Ok(Recorded::Blank);
        }
        let (read_name, rest) = split_once(line, ' ');
        let raw = match rest {
            Some(raw) => raw,
            None => return Err(JoinError::MissingComment),
        };
        let ghost m0 = self@;
        let (comment, recognised) = derive_annotation(raw);
        let key = match name_to_readname_key(read_name, &mut self.readname_parts) {
            Ok(k) => k,
            Err(e) => {
                proof {
                    self.readname_parts.lemma_valid();
                    assert(self.comments@ == m0.comments);
                    assert(self.index@ == m0.index);
                    assert(valid_model(self@));
                }
                return Err(e);
            },
        };
        if !(self.comments.contains(comment.as_str()) || self.comments.len() < MAX_ENTRIES) {
            return Err(JoinError::TableFull);
        }
        proof {
            self.comments.lemma_valid();
            lemma_interned(m0.comments, comment@);
        }
        let comment_id = self.comments.key_for_value(comment.as_str());
        let packed = pack_key(&key);
        match self.index.get(&packed) {
            Some(old_id) => {
                if *old_id != comment_id {
                    return Err(JoinError::Conflict { old_comment: *old_id, new_comment: comment_id });
                }
            },
            None => {},
        }
        self.index.insert(packed, comment_id);
        proof {
            self.readname_parts.lemma_valid();
        }
        if recognised {
            Ok(Recorded::Barcode)
        } else {
            Ok(Recorded::Unrecognized)
        }
    }

    /// Annotates one record line. A header (starting with '@') passes through as it is. A
    /// data line gets the annotation of its read appended as a new tab-separated field;
    /// where the read has none, `policy` decides, and the outcome reports it.
    pub fn annotate_line(&mut self, line: &str, policy: UnmatchedPolicy) -> (r: Result<
        Annotated,
        JoinError,
    >)
        requires
            old(self).wf(),
        ensures
            final(self).wf(),
            final(self)@.comments == old(self)@.comments,
            final(self)@.index == old(self)@.index,
            match annotate_step(old(self)@, line@, policy) {
                Ok((parts, out, d)) => r is Ok && text_of(r->Ok_0.output) == out
                    && r->Ok_0.diagnostic == d && final(self)@.parts == parts,
                Err(e) => r == Err::<Annotated, JoinError>(e),
            },
    {
        if !line.is_empty() && line.get_char(0) == '@' {
            return Ok(Annotated { output: Some(line.to_owned()), diagnostic: Diagnostic::Clean });
        }
        let (field, _) = split_once(line, '\t');
        let mut name = String::from_str("@");
        name.append(field);
        proof {
            reveal_strlit("@");
            assert(name@ =~= lookup_name(line@));
        }
        let key = match name_to_readname_key(name.as_str(), &mut self.readname_parts) {
            Ok(k) => k,
            Err(e) => {
                proof {
                    self.readname_parts.lemma_valid();
                }
                return Err(e);
            },
        };
        proof {
            self.readname_parts.lemma_valid();
        }
        let packed = pack_key(&key);
        match self.index.get(&packed) {
            Some(id) => {
                let comment = match self.comments.value_for_key(*id) {
                    Some(c) => c,
                    None => {
                        assert(false);
                        return Err(JoinError::TableFull);
                    },
                };
                proof {
                    reveal_strlit("BC:Z:");
                    assert("BC:Z:"@ =~= barcode_tag());
                }
                let tagged = has_prefix(comment.as_str(), "BC:Z:");
                let mut out = String::from_str(line);
                push_char(&mut out, '\t');
                out.append(comment.as_str());
                assert(out@ =~= line@ + seq!['\t'] + comment@);
                let diagnostic = if tagged {
                    Diagnostic::Clean
                } else {
                    Diagnostic::UnexpectedTag
                };
                Ok(Annotated { output: Some(out), diagnostic })
            },
            None => {
                let output = match policy {
                    UnmatchedPolicy::Fallback => {
                        let mut out = String::from_str(line);
                        push_char(&mut out, '\t');
                        out.append("XC:Z:UNKNOWN");
                        proof {
                            reveal_strlit("XC:Z:UNKNOWN");
                            assert(out@ =~= line@ + seq!['\t'] + unknown_annotation());
                        }
                        Some(out)
                    },
                    UnmatchedPolicy::PassThrough => Some(line.to_owned()),
                    UnmatchedPolicy::Skip => None,
                };
                Ok(Annotated { output, diagnostic: Diagnostic::Unmatched })
            },
        }
    }

    /// Annotates the records `lines` in order, one outcome per record.
    pub fn annotate_lines(&mut self, lines: &Vec<String>, policy: UnmatchedPolicy) -> (r: Result<
        Vec<Annotated>,
        JoinError,
    >)
        requires
            old(self).wf(),
        ensures
            final(self).wf(),
            final(self)@.comments == old(self)@.comments,
            final(self)@.index == old(self)@.index,
            match annotate_all(old(self)@, views(lines@), policy) {
                Ok((parts, outs)) => r is Ok && outcomes(r->Ok_0@) == outs && final(self)@.parts
                    == parts,
                Err(e) => r == Err::<Vec<Annotated>, JoinError>(e),
            },
    {
        let ghost m0 = self@;
        let ghost all = views(lines@);
        let mut out: Vec<Annotated> = Vec::new();
        let mut i: usize = 0;
        assert(all.subrange(0, 0) =~= Seq::<Seq<char>>::empty());
        assert(outcomes(out@) =~= Seq::<(Option<Seq<char>>, Diagnostic)>::empty());
        while i < lines.len()
            invariant
                self.wf(),
                m0 == old(self)@,
                all == views(lines@),
                all.len() == lines.len(),
                i <= lines.len(),
                self@.comments == m0.comments,
                self@.index == m0.index,
                annotate_all(m0, all.subrange(0, i as int), policy) == Ok::<
                    (Seq<Seq<char>>, Seq<(Option<Seq<char>>, Diagnostic)>),
                    JoinError,
                >((self@.parts, outcomes(out@))),
            decreases lines.len() - i,
        {
            let ghost before = self@;
            let ghost prefix = all.subrange(0, i as int + 1);
            assert(prefix.drop_last() =~= all.subrange(0, i as int));
            assert(prefix.last() == lines[i as int]@);
            assert(with_parts(m0, before.parts) == before);
            let res = self.annotate_line(lines[i].as_str(), policy);
            match res {
                Ok(a) => {
                    out.push(a);
                    assert(outcomes(out@) =~= annotate_all(m0, prefix, policy)->Ok_0.1);
                },
                Err(e) => {
                    proof {
                        lemma_annotate_all_stops(m0, all, i as int + 1, policy);
                    }
                    return Err(e);
                },
            }
            i = i + 1;
        }
        assert(all.subrange(0, i as int) =~= all);
        Ok(out)
    }

    /// The annotation with identifier `id`, if there is one.
    pub fn comment(&self, id: u16) -> (r: Option<&String>)
        requires
            self.wf(),
        ensures
            match r {
                Some(s) => id < self@.comments.len() && s@ == self@.comments[id as int],
                None => id >= self@.comments.len(),
            },
    {
        self.comments.value_for_key(id)
    }
}

} // verus!
