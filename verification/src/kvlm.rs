//! The KVLM codec: a lossless, order-preserving codec for a line-oriented
//! header block followed by free text.
//!
//! The grammar is byte-oriented. Zero or more header lines `<key> <value>\n`
//! come first, where a key contains no space and no newline and a value may
//! contain embedded newlines; on disk each embedded newline is followed by a
//! single space on the continuation line. The header block ends at the first
//! blank line; everything after that line is the message, verbatim.

use vstd::prelude::*;

use crate::bytes::bytes_eq;
use crate::bytes::copy_range;
use crate::errors::StoreError;

verus! {

broadcast use crate::bytes::lemma_bytes_deep_view;

/// Line terminator of the grammar.
pub const NEWLINE: u8 = 10;

/// Separator between a key and its value, and continuation marker.
pub const SPACE: u8 = 32;

/// Mathematical model of one header key with the values that arrived for
/// it, oldest first.
#[verifier::ext_equal]
pub struct EntryModel {
    pub key: Seq<u8>,
    pub values: Seq<Seq<u8>>,
}

/// Mathematical model of a whole KVLM document: the header entries in
/// key-arrival order, and the free-text message.
#[verifier::ext_equal]
pub struct KvlmModel {
    pub entries: Seq<EntryModel>,
    pub message: Seq<u8>,
}

/// A key is valid when it is nonempty and free of spaces and newlines.
pub open spec fn key_wf(key: Seq<u8>) -> bool {
    &&& key.len() > 0
    &&& forall|i: int| 0 <= i < key.len() ==> key[i] != SPACE && key[i] != NEWLINE
}

/// Valid header entries: every key valid and distinct, every value list
/// nonempty.
pub open spec fn entries_wf(entries: Seq<EntryModel>) -> bool {
    &&& forall|i: int| 0 <= i < entries.len() ==> key_wf(#[trigger] entries[i].key)
    &&& forall|i: int| 0 <= i < entries.len() ==> (#[trigger] entries[i].values).len() > 0
    &&& forall|i: int, j: int|
        0 <= i < j < entries.len() ==> (#[trigger] entries[i].key) != (#[trigger] entries[j].key)
}

/// A well-formed document model.
pub open spec fn model_wf(m: KvlmModel) -> bool {
    entries_wf(m.entries)
}

/// Whether some entry carries this key.
pub open spec fn has_key(entries: Seq<EntryModel>, key: Seq<u8>) -> bool {
    exists|i: int| 0 <= i < entries.len() && (#[trigger] entries[i].key) == key
}

/// The effect of recording one more header line `key value`: append the
/// value to the entry already holding the key, or add a new entry at the
/// end of the key order.
pub open spec fn model_append(
    entries: Seq<EntryModel>,
    key: Seq<u8>,
    value: Seq<u8>,
) -> Seq<EntryModel>
    decreases entries.len(),
{
    if entries.len() == 0 {
        seq![EntryModel { key, values: seq![value] }]
    } else if entries[0].key == key {
        seq![EntryModel { key: entries[0].key, values: entries[0].values.push(value) }]
            + entries.drop_first()
    } else {
        seq![entries[0]] + model_append(entries.drop_first(), key, value)
    }
}

/// When the key is absent, appending adds a new entry at the end.
pub proof fn lemma_model_append_absent(entries: Seq<EntryModel>, key: Seq<u8>, value: Seq<u8>)
    requires
        !has_key(entries, key),
    ensures
        model_append(entries, key, value) == entries.push(
            EntryModel { key, values: seq![value] },
        ),
    decreases entries.len(),
{
    if entries.len() == 0 {
        assert(model_append(entries, key, value) =~= entries.push(
            EntryModel { key, values: seq![value] },
        ));
    } else {
        assert(entries[0].key != key);
        assert(!has_key(entries.drop_first(), key)) by {
            assert forall|i: int|
                0 <= i < entries.drop_first().len() implies (#[trigger] entries.drop_first()[i]).key
                != key by {
                assert(entries.drop_first()[i] == entries[i + 1]);
            }
        }
        lemma_model_append_absent(entries.drop_first(), key, value);
        assert(model_append(entries, key, value) =~= entries.push(
            EntryModel { key, values: seq![value] },
        ));
    }
}

/// When the key sits at position `j` and nowhere earlier, appending only
/// extends that entry's value list.
pub proof fn lemma_model_append_found(
    entries: Seq<EntryModel>,
    key: Seq<u8>,
    value: Seq<u8>,
    j: int,
)
    requires
        0 <= j < entries.len(),
        entries[j].key == key,
        forall|i: int| 0 <= i < j ==> (#[trigger] entries[i].key) != key,
    ensures
        model_append(entries, key, value) == entries.update(
            j,
            EntryModel { key: entries[j].key, values: entries[j].values.push(value) },
        ),
    decreases j,
{
    if j == 0 {
        assert(model_append(entries, key, value) =~= entries.update(
            j,
            EntryModel { key: entries[j].key, values: entries[j].values.push(value) },
        ));
    } else {
        assert(entries[0].key != key);
        assert(entries.drop_first()[j - 1] == entries[j]);
        assert forall|i: int|
            0 <= i < j - 1 implies (#[trigger] entries.drop_first()[i]).key != key by {
            assert(entries.drop_first()[i] == entries[i + 1]);
        }
        lemma_model_append_found(entries.drop_first(), key, value, j - 1);
        assert(model_append(entries, key, value) =~= entries.update(
            j,
            EntryModel { key: entries[j].key, values: entries[j].values.push(value) },
        ));
    }
}

/// On-disk form of one value: every embedded newline is emitted as the
/// newline followed by a single space, so each physical continuation line
/// of a multi-line value begins with exactly one space.
pub open spec fn escape(v: Seq<u8>) -> Seq<u8>
    decreases v.len(),
{
    if v.len() == 0 {
        Seq::empty()
    } else if v[0] == NEWLINE {
        seq![NEWLINE, SPACE] + escape(v.drop_first())
    } else {
        seq![v[0]] + escape(v.drop_first())
    }
}

/// The header lines of one key: one `<key> <value>\n` line per value,
/// oldest value first.
pub open spec fn ser_values(key: Seq<u8>, values: Seq<Seq<u8>>) -> Seq<u8>
    decreases values.len(),
{
    if values.len() == 0 {
        Seq::empty()
    } else {
        key + seq![SPACE] + escape(values[0]) + seq![NEWLINE] + ser_values(
            key,
            values.drop_first(),
        )
    }
}

/// The header block: the lines of each entry, in key-arrival order.
pub open spec fn ser_entries(entries: Seq<EntryModel>) -> Seq<u8>
    decreases entries.len(),
{
    if entries.len() == 0 {
        Seq::empty()
    } else {
        ser_values(entries[0].key, entries[0].values) + ser_entries(entries.drop_first())
    }
}

/// The serialized document: the header block, one blank line, then the
/// message verbatim.
pub open spec fn serialize_model(m: KvlmModel) -> Seq<u8> {
    ser_entries(m.entries) + seq![NEWLINE] + m.message
}

/// One header key with the values recorded for it, oldest first.
pub struct KvEntry {
    key: Vec<u8>,
    values: Vec<Vec<u8>>,
}

impl View for KvEntry {
    type V = EntryModel;

    closed spec fn view(&self) -> EntryModel {
        EntryModel { key: self.key@, values: self.values.deep_view() }
    }
}

impl DeepView for KvEntry {
    type V = EntryModel;

    closed spec fn deep_view(&self) -> EntryModel {
        self.view()
    }
}

impl KvEntry {
    /// The header key.
    pub fn key(&self) -> (r: &Vec<u8>)
        ensures
            r@ == self@.key,
    {
        &self.key
    }

    /// The values recorded for the key, oldest first.
    pub fn values(&self) -> (r: &Vec<Vec<u8>>)
        ensures
            r.deep_view() == self@.values,
    {
        &self.values
    }
}

/// An ordered multi-map of header entries plus the free-text message.
///
/// Keys keep their order of first arrival; repeated keys keep the relative
/// order of their values. Every constructor and method preserves
/// [`model_wf`] of the view.
pub struct OrderedHM {
    entries: Vec<KvEntry>,
    message: Vec<u8>,
}

impl View for OrderedHM {
    type V = KvlmModel;

    closed spec fn view(&self) -> KvlmModel {
        KvlmModel { entries: self.entries.deep_view(), message: self.message@ }
    }
}

impl OrderedHM {
    /// An empty document: no header entries and an empty message.
    pub fn new() -> (r: OrderedHM)
        ensures
            r@.entries == Seq::<EntryModel>::empty(),
            r@.message == Seq::<u8>::empty(),
            model_wf(r@),
    {
        let r = OrderedHM { entries: Vec::new(), message: Vec::new() };
        proof {
            assert(r@.entries =~= Seq::<EntryModel>::empty());
        }
        r
    }

    /// Record one header line: the value joins the entry already holding
    /// the key, or opens a new entry at the end of the key order.
    pub fn append(&mut self, key: Vec<u8>, value: Vec<u8>)
        requires
            key_wf(key@),
            model_wf(old(self)@),
        ensures
            final(self)@.entries == model_append(old(self)@.entries, key@, value@),
            final(self)@.message == old(self)@.message,
            model_wf(final(self)@),
    {
        let ghost entries0 = self@.entries;
        let n = self.entries.len();
        let mut i: usize = 0;
        while i < n
            invariant
                i <= n,
                n == self.entries@.len(),
                *self == *old(self),
                entries0 == self@.entries,
                entries_wf(entries0),
                forall|k: int| 0 <= k < i ==> (#[trigger] self@.entries[k].key) != key@,
            decreases n - i,
        {
            if bytes_eq(&self.entries[i].key, &key) {
                let mut e = self.entries.remove(i);
                e.values.push(value);
                self.entries.insert(i, e);
                proof {
                    lemma_model_append_found(entries0, key@, value@, i as int);
                    assert(self@.entries =~~= entries0.update(
                        i as int,
                        EntryModel {
                            key: entries0[i as int].key,
                            values: entries0[i as int].values.push(value@),
                        },
                    ));
                    assert(model_wf(self@)) by {
                        assert(forall|k: int|
                            0 <= k < self@.entries.len() && k != i ==> self@.entries[k]
                                == entries0[k]);
                        assert(self@.entries[i as int].key == entries0[i as int].key);
                        assert(self@.entries[i as int].values.len() == entries0[
                            i as int
                        ].values.len() + 1);
                    }
                }
                return ;
            }
            i += 1;
        }
        let mut vs: Vec<Vec<u8>> = Vec::new();
        vs.push(value);
        let e = KvEntry { key, values: vs };
        self.entries.push(e);
        proof {
            assert(!has_key(entries0, key@));
            lemma_model_append_absent(entries0, key@, value@);
            assert(e@.values =~~= seq![value@]);
            assert(self@.entries =~~= entries0.push(EntryModel { key: key@, values: seq![value@] }));
            assert(model_wf(self@)) by {
                assert(forall|k: int|
                    0 <= k < entries0.len() ==> self@.entries[k] == entries0[k]);
            }
        }
    }

    /// Replace the free-text message.
    pub fn set_message(&mut self, msg: Vec<u8>)
        ensures
            final(self)@.entries == old(self)@.entries,
            final(self)@.message == msg@,
    {
        self.message = msg;
    }

    /// The free-text message.
    pub fn message(&self) -> (r: &Vec<u8>)
        ensures
            r@ == self@.message,
    {
        &self.message
    }

    /// The number of distinct header keys.
    pub fn num_entries(&self) -> (r: usize)
        ensures
            r == self@.entries.len(),
    {
        self.entries.len()
    }

    /// The entry at one position of the key order.
    pub fn entry_at(&self, i: usize) -> (r: &KvEntry)
        requires
            i < self@.entries.len(),
        ensures
            r@ == self@.entries[i as int],
    {
        &self.entries[i]
    }

    /// The values recorded for a key, or `None` if the key never arrived.
    pub fn get(&self, key: &Vec<u8>) -> (r: Option<&Vec<Vec<u8>>>)
        ensures
            match r {
                Some(vs) => has_key(self@.entries, key@) && (exists|j: int|
                    0 <= j < self@.entries.len() && self@.entries[j].key == key@
                        && vs.deep_view() == self@.entries[j].values),
                None => !has_key(self@.entries, key@),
            },
    {
        let n = self.entries.len();
        let mut i: usize = 0;
        while i < n
            invariant
                i <= n,
                n == self.entries@.len(),
                forall|k: int| 0 <= k < i ==> (#[trigger] self@.entries[k].key) != key@,
            decreases n - i,
        {
            if bytes_eq(&self.entries[i].key, key) {
                let r = &self.entries[i].values;
                proof {
                    assert(0 <= i < self@.entries.len() && self@.entries[i as int].key == key@
                        && r.deep_view() == self@.entries[i as int].values);
                }
                return Some(r);
            }
            i += 1;
        }
        None
    }
}

/// Push every byte of `src` onto `out`.
fn push_bytes(out: &mut Vec<u8>, src: &Vec<u8>)
    ensures
        final(out)@ == old(out)@ + src@,
{
    let mut i: usize = 0;
    while i < src.len()
        invariant
            i <= src@.len(),
            out@ == old(out)@ + src@.take(i as int),
        decreases src@.len() - i,
    {
        out.push(src[i]);
        proof {
            assert(src@.take(i + 1) =~= src@.take(i as int).push(src@[i as int]));
        }
        i += 1;
    }
    proof {
        assert(src@.take(src@.len() as int) =~= src@);
    }
}

/// Push the on-disk form of one value onto `out`: each newline gains a
/// following space.
fn push_escaped(out: &mut Vec<u8>, src: &Vec<u8>)
    ensures
        final(out)@ == old(out)@ + escape(src@),
{
    let mut i: usize = 0;
    proof {
        assert(src@.skip(0) =~= src@);
    }
    while i < src.len()
        invariant
            i <= src@.len(),
            out@ + escape(src@.skip(i as int)) == old(out)@ + escape(src@),
        decreases src@.len() - i,
    {
        let b = src[i];
        proof {
            assert(src@.skip(i as int)[0] == src@[i as int]);
            assert(src@.skip(i as int).drop_first() =~= src@.skip(i + 1));
        }
        if b == NEWLINE {
            out.push(NEWLINE);
            out.push(SPACE);
        } else {
            out.push(b);
        }
        i += 1;
    }
    proof {
        assert(src@.skip(src@.len() as int) =~= Seq::<u8>::empty());
    }
}

/// Serialize a document to its on-disk bytes.
///
/// Keys are emitted in their original insertion order, each value in its
/// original order as `<key> <value>\n` with embedded newlines escaped;
/// after all header lines comes one blank line, then the message verbatim.
pub fn kvlm_serialize(okv: &OrderedHM) -> (r: Vec<u8>)
    ensures
        r@ == serialize_model(okv@),
{
    let mut out: Vec<u8> = Vec::new();
    let n = okv.entries.len();
    let mut i: usize = 0;
    proof {
        assert(okv@.entries.skip(0) =~= okv@.entries);
    }
    while i < n
        invariant
            i <= n,
            n == okv@.entries.len(),
            ser_entries(okv@.entries) == out@ + ser_entries(okv@.entries.skip(i as int)),
        decreases n - i,
    {
        let e = &okv.entries[i];
        proof {
            assert(okv@.entries.skip(i as int)[0] == okv@.entries[i as int]);
            assert(okv@.entries.skip(i as int).drop_first() =~= okv@.entries.skip(i + 1));
        }
        let m = e.values.len();
        let mut v: usize = 0;
        proof {
            assert(e@.values.skip(0) =~= e@.values);
        }
        while v < m
            invariant
                v <= m,
                i < n,
                n == okv@.entries.len(),
                m == e@.values.len(),
                e@ == okv@.entries[i as int],
                ser_entries(okv@.entries) == out@ + ser_values(e@.key, e@.values.skip(v as int))
                    + ser_entries(okv@.entries.skip(i + 1)),
            decreases m - v,
        {
            let ghost out0 = out@;
            proof {
                assert(e@.values.skip(v as int)[0] == e@.values[v as int]);
                assert(e@.values.skip(v as int).drop_first() =~= e@.values.skip(v + 1));
            }
            push_bytes(&mut out, &e.key);
            out.push(SPACE);
            push_escaped(&mut out, &e.values[v]);
            out.push(NEWLINE);
            proof {
                assert(out@ =~= out0 + e@.key + seq![SPACE] + escape(e@.values[v as int])
                    + seq![NEWLINE]);
                assert(out0 + ser_values(e@.key, e@.values.skip(v as int)) + ser_entries(
                    okv@.entries.skip(i + 1),
                ) =~= out@ + ser_values(e@.key, e@.values.skip(v + 1)) + ser_entries(
                    okv@.entries.skip(i + 1),
                ));
            }
            v += 1;
        }
        proof {
            assert(ser_values(e@.key, e@.values.skip(m as int)) =~= Seq::<u8>::empty());
        }
        i += 1;
    }
    proof {
        assert(ser_entries(okv@.entries.skip(n as int)) =~= Seq::<u8>::empty());
    }
    out.push(NEWLINE);
    push_bytes(&mut out, &okv.message);
    proof {
        assert(out@ =~= serialize_model(okv@));
    }
    out
}


/// Split a header line at its key: the bytes before the first space, and
/// the rest of the input after that space. There is no header line when a
/// newline or the end of input comes before any space.
pub open spec fn split_key(s: Seq<u8>) -> Option<(Seq<u8>, Seq<u8>)>
    decreases s.len(),
{
    if s.len() == 0 {
        None
    } else if s[0] == SPACE {
        Some((Seq::empty(), s.drop_first()))
    } else if s[0] == NEWLINE {
        None
    } else {
        match split_key(s.drop_first()) {
            None => None,
            Some((k, r)) => Some((seq![s[0]] + k, r)),
        }
    }
}

/// Consume one value run: the run extends across physical lines as long as
/// each following line begins with a space, which is dropped while the
/// newline is kept in the logical value. The result is the logical value
/// and the input after the run's terminating newline; the run must end at
/// a terminating newline, never at end of input.
pub open spec fn split_value(s: Seq<u8>) -> Option<(Seq<u8>, Seq<u8>)>
    decreases s.len(),
{
    if s.len() == 0 {
        None
    } else if s[0] == NEWLINE {
        if s.len() >= 2 && s[1] == SPACE {
            match split_value(s.skip(2)) {
                None => None,
                Some((v, r)) => Some((seq![NEWLINE] + v, r)),
            }
        } else {
            Some((Seq::empty(), s.drop_first()))
        }
    } else {
        match split_value(s.drop_first()) {
            None => None,
            Some((v, r)) => Some((seq![s[0]] + v, r)),
        }
    }
}

/// A successful key split consumes at least the space, and the key holds
/// neither a space nor a newline.
pub proof fn lemma_split_key_shape(s: Seq<u8>)
    ensures
        split_key(s) matches Some((k, r)) ==> {
            &&& k.len() + 1 + r.len() == s.len()
            &&& forall|i: int| 0 <= i < k.len() ==> k[i] != SPACE && k[i] != NEWLINE
        },
    decreases s.len(),
{
    if s.len() == 0 || s[0] == SPACE || s[0] == NEWLINE {
    } else {
        lemma_split_key_shape(s.drop_first());
    }
}

/// A successful value split consumes at least the terminating newline.
pub proof fn lemma_split_value_shape(s: Seq<u8>)
    ensures
        split_value(s) matches Some((v, r)) ==> r.len() < s.len(),
    decreases s.len(),
{
    if s.len() == 0 {
    } else if s[0] == NEWLINE {
        if s.len() >= 2 && s[1] == SPACE {
            lemma_split_value_shape(s.skip(2));
        }
    } else {
        lemma_split_value_shape(s.drop_first());
    }
}

/// Parse the input from the front, accumulating header entries. A blank
/// line ends the header block and the rest of the input is the message;
/// input that ends before a blank line, or a line that is neither blank
/// nor a well-formed header line, is malformed (`None`).
pub open spec fn parse_from(raw: Seq<u8>, acc: Seq<EntryModel>) -> Option<KvlmModel>
    decreases raw.len(),
    via parse_from_decreases
{
    if raw.len() == 0 {
        None
    } else if raw[0] == NEWLINE {
        Some(KvlmModel { entries: acc, message: raw.drop_first() })
    } else {
        match split_key(raw) {
            None => None,
            Some((key, rest1)) => if key.len() == 0 {
                None
            } else {
                match split_value(rest1) {
                    None => None,
                    Some((value, rest2)) => parse_from(rest2, model_append(acc, key, value)),
                }
            },
        }
    }
}

#[via_fn]
proof fn parse_from_decreases(raw: Seq<u8>, acc: Seq<EntryModel>) {
    lemma_split_key_shape(raw);
    if raw.len() > 0 && raw[0] != NEWLINE {
        match split_key(raw) {
            None => {},
            Some((key, rest1)) => {
                lemma_split_value_shape(rest1);
            },
        }
    }
}

/// Parse a whole document: header entries in key-arrival order, then the
/// message after the first blank line.
pub open spec fn parse_model(raw: Seq<u8>) -> Option<KvlmModel> {
    parse_from(raw, Seq::empty())
}


/// Scan the key of a header line beginning at offset `i` of `raw`.
fn scan_key(raw: &Vec<u8>, i: usize) -> (r: Option<(Vec<u8>, usize)>)
    requires
        i <= raw@.len(),
    ensures
        match r {
            Some((k, j)) => {
                &&& split_key(raw@.skip(i as int)) == Some((k@, raw@.skip(j as int)))
                &&& i < j <= raw@.len()
            },
            None => split_key(raw@.skip(i as int)) is None,
        },
{
    let mut k: Vec<u8> = Vec::new();
    let mut j = i;
    loop
        invariant
            i <= j <= raw@.len(),
            match split_key(raw@.skip(j as int)) {
                None => split_key(raw@.skip(i as int)) is None,
                Some((k2, r)) => split_key(raw@.skip(i as int)) == Some((k@ + k2, r)),
            },
        decreases raw@.len() - j,
    {
        if j == raw.len() {
            proof {
                assert(raw@.skip(j as int) =~= Seq::<u8>::empty());
            }
            return None;
        }
        let b = raw[j];
        proof {
            assert(raw@.skip(j as int)[0] == raw@[j as int]);
            assert(raw@.skip(j as int).drop_first() =~= raw@.skip(j + 1));
        }
        if b == SPACE {
            proof {
                assert(k@ + Seq::<u8>::empty() =~= k@);
            }
            return Some((k, j + 1));
        }
        if b == NEWLINE {
            return None;
        }
        k.push(b);
        proof {
            match split_key(raw@.skip(j + 1)) {
                None => {},
                Some((k2, r)) => {
                    assert((k@.drop_last()) + (seq![b] + k2) =~= k@ + k2);
                },
            }
        }
        j += 1;
    }
}

/// Scan one value run beginning at offset `i` of `raw`, decoding
/// continuation markers.
fn scan_value(raw: &Vec<u8>, i: usize) -> (r: Option<(Vec<u8>, usize)>)
    requires
        i <= raw@.len(),
    ensures
        match r {
            Some((v, j)) => {
                &&& split_value(raw@.skip(i as int)) == Some((v@, raw@.skip(j as int)))
                &&& i < j <= raw@.len()
            },
            None => split_value(raw@.skip(i as int)) is None,
        },
{
    let mut v: Vec<u8> = Vec::new();
    let mut j = i;
    loop
        invariant
            i <= j <= raw@.len(),
            match split_value(raw@.skip(j as int)) {
                None => split_value(raw@.skip(i as int)) is None,
                Some((v2, r)) => split_value(raw@.skip(i as int)) == Some((v@ + v2, r)),
            },
        decreases raw@.len() - j,
    {
        if j == raw.len() {
            proof {
                assert(raw@.skip(j as int) =~= Seq::<u8>::empty());
            }
            return None;
        }
        let b = raw[j];
        proof {
            assert(raw@.skip(j as int)[0] == raw@[j as int]);
            assert(raw@.skip(j as int).drop_first() =~= raw@.skip(j + 1));
        }
        if b == NEWLINE {
            if j + 1 < raw.len() && raw[j + 1] == SPACE {
                proof {
                    assert(raw@.skip(j as int).len() >= 2);
                    assert(raw@.skip(j as int)[1] == raw@[j + 1]);
                    assert(raw@.skip(j as int).skip(2) =~= raw@.skip(j + 2));
                }
                v.push(NEWLINE);
                proof {
                    match split_value(raw@.skip(j + 2)) {
                        None => {},
                        Some((v2, r)) => {
                            assert((v@.drop_last()) + (seq![NEWLINE] + v2) =~= v@ + v2);
                        },
                    }
                }
                j += 2;
            } else {
                proof {
                    assert(!(raw@.skip(j as int).len() >= 2 && raw@.skip(j as int)[1] == SPACE))
                        by {
                        if raw@.skip(j as int).len() >= 2 {
                            assert(raw@.skip(j as int)[1] == raw@[j + 1]);
                        }
                    }
                    assert(v@ + Seq::<u8>::empty() =~= v@);
                }
                return Some((v, j + 1));
            }
        } else {
            v.push(b);
            proof {
                match split_value(raw@.skip(j + 1)) {
                    None => {},
                    Some((v2, r)) => {
                        assert((v@.drop_last()) + (seq![b] + v2) =~= v@ + v2);
                    },
                }
            }
            j += 1;
        }
    }
}

/// Parse the on-disk bytes of a document.
///
/// Header lines are recorded in arrival order until the first blank line;
/// the rest of the input is the message, verbatim. Input whose header
/// block is not closed by a blank line before the end, or that holds a
/// line that is neither blank nor a header line, fails with
/// [`StoreError::MalformedObject`].
pub fn kvlm_parse(raw: &Vec<u8>) -> (r: Result<OrderedHM, StoreError>)
    ensures
        match r {
            Ok(m) => parse_model(raw@) == Some(m@) && model_wf(m@),
            Err(e) => parse_model(raw@) is None && e == StoreError::MalformedObject,
        },
{
    let mut okv = OrderedHM::new();
    let mut i: usize = 0;
    proof {
        assert(raw@.skip(0) =~= raw@);
    }
    loop
        invariant
            i <= raw@.len(),
            model_wf(okv@),
            parse_model(raw@) == parse_from(raw@.skip(i as int), okv@.entries),
        decreases raw@.len() - i,
    {
        if i == raw.len() {
            proof {
                assert(raw@.skip(i as int) =~= Seq::<u8>::empty());
            }
            return Err(StoreError::MalformedObject);
        }
        proof {
            assert(raw@.skip(i as int)[0] == raw@[i as int]);
        }
        if raw[i] == NEWLINE {
            let msg = copy_range(raw, i + 1, raw.len());
            okv.set_message(msg);
            proof {
                assert(raw@.skip(i as int).drop_first() =~= raw@.skip(i + 1));
                assert(raw@.subrange(i + 1, raw@.len() as int) =~= raw@.skip(i + 1));
            }
            return Ok(okv);
        }
        match scan_key(raw, i) {
            None => {
                return Err(StoreError::MalformedObject);
            },
            Some((key, j)) => {
                if key.len() == 0 {
                    return Err(StoreError::MalformedObject);
                }
                match scan_value(raw, j) {
                    None => {
                        return Err(StoreError::MalformedObject);
                    },
                    Some((value, k2)) => {
                        proof {
                            lemma_split_key_shape(raw@.skip(i as int));
                        }
                        let ghost entries0 = okv@.entries;
                        okv.append(key, value);
                        i = k2;
                    },
                }
            },
        }
    }
}


/// Decoding a value run undoes escaping: the serialized form of a value,
/// followed by its terminating newline and any rest not beginning with a
/// space, splits back into the value and the rest.
proof fn lemma_split_value_escape(v: Seq<u8>, rest: Seq<u8>)
    requires
        rest.len() == 0 || rest[0] != SPACE,
    ensures
        split_value(escape(v) + seq![NEWLINE] + rest) == Some((v, rest)),
    decreases v.len(),
{
    let s = escape(v) + seq![NEWLINE] + rest;
    if v.len() == 0 {
        assert(s =~= seq![NEWLINE] + rest);
        assert(s[0] == NEWLINE);
        if rest.len() > 0 {
            assert(s[1] == rest[0]);
        }
        assert(s.drop_first() =~= rest);
    } else if v[0] == NEWLINE {
        assert(escape(v) =~= seq![NEWLINE, SPACE] + escape(v.drop_first()));
        assert(s[0] == NEWLINE && s.len() >= 2 && s[1] == SPACE);
        assert(s.skip(2) =~= escape(v.drop_first()) + seq![NEWLINE] + rest);
        lemma_split_value_escape(v.drop_first(), rest);
        assert(seq![NEWLINE] + v.drop_first() =~= v);
    } else {
        assert(escape(v) =~= seq![v[0]] + escape(v.drop_first()));
        assert(s[0] == v[0]);
        assert(s[0] != NEWLINE);
        assert(s.drop_first() =~= escape(v.drop_first()) + seq![NEWLINE] + rest);
        lemma_split_value_escape(v.drop_first(), rest);
        assert(seq![v[0]] + v.drop_first() =~= v);
    }
}

/// A serialized header line splits back into its key and the rest after
/// the separating space.
proof fn lemma_split_key_ser(key: Seq<u8>, rest: Seq<u8>)
    requires
        forall|i: int| 0 <= i < key.len() ==> key[i] != SPACE && key[i] != NEWLINE,
    ensures
        split_key(key + seq![SPACE] + rest) == Some((key, rest)),
    decreases key.len(),
{
    let s = key + seq![SPACE] + rest;
    if key.len() == 0 {
        assert(s =~= seq![SPACE] + rest);
        assert(s[0] == SPACE);
        assert(s.drop_first() =~= rest);
    } else {
        assert(s[0] == key[0]);
        assert(s.drop_first() =~= key.drop_first() + seq![SPACE] + rest);
        assert(forall|i: int|
            0 <= i < key.drop_first().len() ==> key.drop_first()[i] == key[i + 1]);
        lemma_split_key_ser(key.drop_first(), rest);
        assert(seq![key[0]] + key.drop_first() =~= key);
    }
}

/// Appending a value for the key held by the last entry, when no earlier
/// entry holds it, only extends that last entry.
proof fn lemma_model_append_last(acc0: Seq<EntryModel>, key: Seq<u8>, vs: Seq<Seq<u8>>, v: Seq<u8>)
    requires
        !has_key(acc0, key),
    ensures
        model_append(acc0.push(EntryModel { key, values: vs }), key, v) == acc0.push(
            EntryModel { key, values: vs.push(v) },
        ),
{
    let entries = acc0.push(EntryModel { key, values: vs });
    let j = acc0.len() as int;
    assert(entries[j].key == key);
    assert(forall|i: int| 0 <= i < j ==> (#[trigger] entries[i].key) == acc0[i].key);
    lemma_model_append_found(entries, key, v, j);
    assert(entries.update(j, EntryModel { key, values: vs.push(v) }) =~= acc0.push(
        EntryModel { key, values: vs.push(v) },
    ));
}

/// Parsing the remaining serialized lines of the key held by the last
/// accumulated entry folds each value into that entry.
proof fn lemma_parse_values(
    key: Seq<u8>,
    vs_done: Seq<Seq<u8>>,
    vs_todo: Seq<Seq<u8>>,
    acc0: Seq<EntryModel>,
    rest: Seq<u8>,
)
    requires
        key_wf(key),
        !has_key(acc0, key),
        rest.len() > 0,
        rest[0] != SPACE,
    ensures
        parse_from(
            ser_values(key, vs_todo) + rest,
            acc0.push(EntryModel { key, values: vs_done }),
        ) == parse_from(rest, acc0.push(EntryModel { key, values: vs_done + vs_todo })),
    decreases vs_todo.len(),
{
    if vs_todo.len() == 0 {
        assert(ser_values(key, vs_todo) + rest =~= rest);
        assert(vs_done + vs_todo =~= vs_done);
    } else {
        let v0 = vs_todo[0];
        let tail = ser_values(key, vs_todo.drop_first()) + rest;
        let s = ser_values(key, vs_todo) + rest;
        assert(s =~= key + seq![SPACE] + (escape(v0) + seq![NEWLINE] + tail));
        assert(s[0] == key[0]);
        assert(s[0] != NEWLINE && s.len() > 0);
        lemma_split_key_ser(key, escape(v0) + seq![NEWLINE] + tail);
        assert(split_key(s) == Some((key, escape(v0) + seq![NEWLINE] + tail)));
        if vs_todo.drop_first().len() == 0 {
            assert(tail =~= rest);
            assert(tail.len() > 0 && tail[0] != SPACE);
        } else {
            assert(tail[0] == key[0]);
            assert(tail.len() > 0 && tail[0] != SPACE);
        }
        lemma_split_value_escape(v0, tail);
        lemma_model_append_last(acc0, key, vs_done, v0);
        assert(parse_from(s, acc0.push(EntryModel { key, values: vs_done })) == parse_from(
            tail,
            acc0.push(EntryModel { key, values: vs_done.push(v0) }),
        ));
        lemma_parse_values(key, vs_done.push(v0), vs_todo.drop_first(), acc0, rest);
        assert(vs_done.push(v0) + vs_todo.drop_first() =~= vs_done + vs_todo);
    }
}

/// Parsing the serialized lines of well-formed entries, over an
/// accumulator that shares no key with them, appends exactly those
/// entries and ends at the blank line with the message.
proof fn lemma_parse_entries(todo: Seq<EntryModel>, acc: Seq<EntryModel>, msg: Seq<u8>)
    requires
        entries_wf(todo),
        forall|i: int| 0 <= i < todo.len() ==> !has_key(acc, (#[trigger] todo[i]).key),
    ensures
        parse_from(ser_entries(todo) + seq![NEWLINE] + msg, acc) == Some(
            KvlmModel { entries: acc + todo, message: msg },
        ),
    decreases todo.len(),
{
    if todo.len() == 0 {
        let s = ser_entries(todo) + seq![NEWLINE] + msg;
        assert(s =~= seq![NEWLINE] + msg);
        assert(s[0] == NEWLINE);
        assert(s.drop_first() =~= msg);
        assert(acc + todo =~= acc);
        assert(parse_from(s, acc) == Some(KvlmModel { entries: acc + todo, message: msg }));
    } else {
        let e0 = todo[0];
        let key = e0.key;
        let v0 = e0.values[0];
        let todo1 = todo.drop_first();
        let rr = ser_entries(todo1) + seq![NEWLINE] + msg;
        let s = ser_entries(todo) + seq![NEWLINE] + msg;
        // the rest after this entry's lines begins with a key byte or the
        // blank line, never with a space
        assert(rr.len() > 0);
        if todo1.len() == 0 {
            assert(rr =~= seq![NEWLINE] + msg);
            assert(rr[0] == NEWLINE);
        } else {
            assert(key_wf(todo1[0].key) && todo1[0].values.len() > 0) by {
                assert(todo1[0] == todo[1]);
            }
            assert(rr[0] == todo1[0].key[0]);
        }
        assert(rr[0] != SPACE);
        let vtail = ser_values(key, e0.values.drop_first()) + rr;
        assert(s =~= key + seq![SPACE] + (escape(v0) + seq![NEWLINE] + vtail));
        assert(s[0] == key[0] && s[0] != NEWLINE && s.len() > 0);
        lemma_split_key_ser(key, escape(v0) + seq![NEWLINE] + vtail);
        if e0.values.drop_first().len() == 0 {
            assert(vtail =~= rr);
        } else {
            assert(vtail[0] == key[0]);
        }
        assert(vtail.len() > 0 && vtail[0] != SPACE);
        lemma_split_value_escape(v0, vtail);
        lemma_model_append_absent(acc, key, v0);
        assert(parse_from(s, acc) == parse_from(
            vtail,
            acc.push(EntryModel { key, values: seq![v0] }),
        ));
        assert(!has_key(acc, key));
        lemma_parse_values(key, seq![v0], e0.values.drop_first(), acc, rr);
        assert(seq![v0] + e0.values.drop_first() =~= e0.values);
        assert(acc.push(EntryModel { key, values: e0.values }) =~~= acc.push(e0));
        let acc1 = acc.push(e0);
        assert(entries_wf(todo1)) by {
            assert(forall|i: int| 0 <= i < todo1.len() ==> todo1[i] == todo[i + 1]);
        }
        assert(forall|i: int| 0 <= i < todo1.len() ==> !has_key(acc1, (#[trigger] todo1[i]).key))
            by {
            assert forall|i: int|
                0 <= i < todo1.len() implies !has_key(acc1, (#[trigger] todo1[i]).key) by {
                assert(todo1[i] == todo[i + 1]);
                assert(!has_key(acc, todo[i + 1].key));
                assert(todo[i + 1].key != e0.key);
                assert forall|k: int|
                    0 <= k < acc1.len() implies (#[trigger] acc1[k].key) != todo1[i].key by {
                    if k < acc.len() {
                        assert(acc1[k] == acc[k]);
                    } else {
                        assert(acc1[k] == e0);
                    }
                }
            }
        }
        lemma_parse_entries(todo1, acc1, msg);
        assert(acc1 + todo1 =~= acc + todo);
    }
}

/// Round trip of the codec: parsing a serialized well-formed document
/// gives the document back, entry for entry, value for value, and the
/// message verbatim. This holds for every ordered multi-map whose keys
/// are nonempty and free of spaces and newlines, whatever its values and
/// its message hold.
pub proof fn lemma_kvlm_round_trip(m: KvlmModel)
    requires
        model_wf(m),
    ensures
        parse_model(serialize_model(m)) == Some(m),
{
    lemma_parse_entries(m.entries, Seq::empty(), m.message);
    assert(Seq::<EntryModel>::empty() + m.entries =~= m.entries);
    assert(KvlmModel { entries: Seq::<EntryModel>::empty() + m.entries, message: m.message }
        =~~= m);
}

} // verus!
