//! What a PlayStation 3 disc says of itself: `PARAM.SFO` and `PS3_DISC.SFB`.
use vstd::prelude::*;
use vstd::slice::*;
use crate::bytes;
use crate::bytes::{bytes_at, read_u16_le, read_u32_be, read_u32_le, spells_at};
use crate::catalog;
use crate::catalog::Catalog;
use crate::numbers;
use crate::numbers::decimal_string;
use crate::text;
use crate::text::{chars_of, join3, read_to_zero, string_of, trim};

verus! {

pub const FORMAT_UTF8_SPECIAL: u16 = 0x0004;

pub const FORMAT_UTF8: u16 = 0x0204;

pub const FORMAT_INTEGER: u16 = 0x0404;

/// A value of a parameter.
#[derive(Debug, PartialEq, Eq)]
pub enum SfoValue {
    Text(String),
    Integer(u32),
}

/// The contents of a value.
pub enum SfoValueView {
    Text(Seq<char>),
    Integer(u32),
}

impl View for SfoValue {
    type V = SfoValueView;

    open spec fn view(&self) -> SfoValueView {
        match self {
            SfoValue::Text(s) => SfoValueView::Text(s@),
            SfoValue::Integer(n) => SfoValueView::Integer(*n),
        }
    }
}

/// A value as text.
pub open spec fn value_text(v: SfoValueView) -> Seq<char> {
    match v {
        SfoValueView::Text(s) => s,
        SfoValueView::Integer(n) => numbers::decimal(n as int),
    }
}

impl SfoValue {
    pub fn as_text(&self) -> (r: String)
        ensures
            r@ == value_text(self@),
    {
        match self {
            SfoValue::Text(s) => s.clone(),
            SfoValue::Integer(n) => decimal_string(*n as u64),
        }
    }
}

/// Parameters by their keys, in ascending order.
pub struct Sfo {
    pub table: Catalog<SfoValue>,
}

/// The text of a padded field.
pub open spec fn field_text(b: Seq<u8>) -> Seq<char> {
    text::trimmed(text::text_to_zero(b))
}

fn trim_nul(b: &[u8]) -> (r: String)
    ensures
        r@ == field_text(b@),
{
    let whole: String = read_to_zero(b);
    let c: Vec<char> = chars_of(whole.as_str());
    let t: Vec<char> = trim(c.as_slice());
    string_of(t.as_slice())
}

/// A value of the given format; other formats have none.
pub open spec fn value_of(format: int, raw: Seq<u8>) -> Option<SfoValueView> {
    if format == FORMAT_INTEGER {
        Some(
            SfoValueView::Integer(
                if raw.len() < 4 {
                    0
                } else {
                    bytes::le32_at(raw, 0) as u32
                },
            ),
        )
    } else if format == FORMAT_UTF8 || format == FORMAT_UTF8_SPECIAL {
        Some(SfoValueView::Text(field_text(raw)))
    } else {
        None
    }
}

/// The parameter number `i`: one without a key, of another format, or with an
/// offset outside the file is passed over.
pub open spec fn parameter(d: Seq<u8>, i: int) -> Option<(Seq<char>, SfoValueView)> {
    let p = 20 + 16 * i;
    let key_at = bytes::le32_at(d, 8) + bytes::le16_at(d, p);
    let len = bytes::le32_at(d, p + 4);
    let at = bytes::le32_at(d, 12) + bytes::le32_at(d, p + 12);
    if key_at > d.len() || field_text(d.skip(key_at)).len() == 0 || at + len > d.len() {
        None
    } else {
        match value_of(bytes::le16_at(d, p + 2), d.subrange(at, at + len)) {
            None => None,
            Some(v) => Some((field_text(d.skip(key_at)), v)),
        }
    }
}

/// The parameters from the one numbered `i` on, added to those in `t`.
pub open spec fn parameters_from(
    d: Seq<u8>,
    i: int,
    n: int,
    t: Seq<(Seq<char>, SfoValueView)>,
) -> Seq<(Seq<char>, SfoValueView)>
    decreases n - i,
{
    if i < 0 || i >= n {
        t
    } else {
        match parameter(d, i) {
            None => parameters_from(d, i + 1, n, t),
            Some((k, v)) => parameters_from(d, i + 1, n, catalog::with_record(t, k, v)),
        }
    }
}

/// The parameters of a `PARAM.SFO`.
pub open spec fn sfo_parsed(d: Seq<u8>) -> Result<Seq<(Seq<char>, SfoValueView)>, Seq<char>> {
    if d.len() < 20 || !bytes::has_at(d, 0, seq![0u8, 0x50, 0x53, 0x46]) {
        Err("Not a PARAM.SFO file"@)
    } else if 20 + 16 * bytes::le32_at(d, 16) > d.len() {
        Err(
            "SFO: entry count "@ + numbers::decimal(bytes::le32_at(d, 16))
                + " does not fit the file"@,
        )
    } else {
        Ok(parameters_from(d, 0, bytes::le32_at(d, 16), seq![]))
    }
}

/// Reads the parameter number `i`.
fn read_parameter(d: &[u8], i: u32) -> (r: Option<(String, SfoValue)>)
    requires
        20 + 16 * (i + 1) <= d@.len(),
    ensures
        match r {
            Some(p) => parameter(d@, i as int) == Some((p.0@, p.1@)),
            None => parameter(d@, i as int) is None,
        },
{
    let size: usize = d.len();
    let p: usize = 20 + 16 * (i as usize);
    let key_at: u64 = read_u32_le(d, 8) as u64 + read_u16_le(d, p) as u64;
    let format: u16 = read_u16_le(d, p + 2);
    let len: u32 = read_u32_le(d, p + 4);
    let at: u64 = read_u32_le(d, 12) as u64 + read_u32_le(d, p + 12) as u64;
    if key_at > size as u64 {
        return None;
    }
    let tail: &[u8] = slice_subrange(d, key_at as usize, size);
    assert(tail@ =~= d@.skip(key_at as int));
    let key: String = trim_nul(tail);
    let letters: Vec<char> = chars_of(key.as_str());
    if letters.len() == 0 || at + len as u64 > size as u64 {
        return None;
    }
    let raw: &[u8] = slice_subrange(d, at as usize, at as usize + len as usize);
    if format == FORMAT_INTEGER {
        let n: u32 = if raw.len() < 4 {
            0
        } else {
            read_u32_le(raw, 0)
        };
        Some((key, SfoValue::Integer(n)))
    } else if format == FORMAT_UTF8 || format == FORMAT_UTF8_SPECIAL {
        Some((key, SfoValue::Text(trim_nul(raw))))
    } else {
        None
    }
}

/// Reads the parameters of a `PARAM.SFO`.
pub fn parse_sfo(data: &[u8]) -> (r: Result<Sfo, String>)
    ensures
        match r {
            Ok(m) => sfo_parsed(data@) == Ok::<Seq<(Seq<char>, SfoValueView)>, Seq<char>>(
                m.table@.files,
            ),
            Err(e) => sfo_parsed(data@) == Err::<Seq<(Seq<char>, SfoValueView)>, Seq<char>>(e@),
        },
{
    let magic: [u8; 4] = [0, 0x50, 0x53, 0x46];
    assert(magic@ =~= seq![0u8, 0x50, 0x53, 0x46]);
    if data.len() < 20 || !bytes_at(data, 0, magic.as_slice()) {
        return Err("Not a PARAM.SFO file".to_owned());
    }
    let count: u32 = read_u32_le(data, 16);
    if 20 + 16 * (count as u64) > data.len() as u64 {
        let n: String = decimal_string(count as u64);
        return Err(join3("SFO: entry count ", n.as_str(), " does not fit the file"));
    }
    let mut table: Catalog<SfoValue> = Catalog::new();
    let ghost goal = parameters_from(data@, 0, count as int, seq![]);
    assert(table@.files =~= seq![]);
    let mut i: u32 = 0;
    while i < count
        invariant
            i <= count,
            20 + 16 * count <= data@.len(),
            parameters_from(data@, i as int, count as int, table@.files) == goal,
        decreases count - i,
    {
        if let Some((key, value)) = read_parameter(data, i) {
            table.add_file(key, value);
        }
        i += 1;
    }
    Ok(Sfo { table })
}

impl Sfo {
    /// The value under a key.
    pub fn get(&self, key: &str) -> (r: Option<&SfoValue>)
        ensures
            match r {
                Some(v) => catalog::record_at(self.table@.files, key@) == Some(v@),
                None => catalog::record_at(self.table@.files, key@) is None,
            },
    {
        match self.table.find(key) {
            Some(i) => Some(&self.table.files[i].1),
            None => None,
        }
    }

    /// Whether a key has a value.
    pub fn contains_key(&self, key: &str) -> (r: bool)
        ensures
            r == catalog::record_at(self.table@.files, key@) is Some,
    {
        self.get(key).is_some()
    }
}

/// What a `PS3_DISC.SFB` holds.
#[derive(Debug, Default, PartialEq, Eq)]
pub struct Sfb {
    pub title_id: String,
    pub version: String,
}

/// Whether `d` is a `PS3_DISC.SFB`.
pub open spec fn is_sfb(d: Seq<u8>) -> bool {
    d.len() >= 0x240 && bytes::spells(d, 0, ".SFB"@)
}

/// Reads a `PS3_DISC.SFB`.
pub fn parse_sfb(data: &[u8]) -> (r: Result<Sfb, String>)
    ensures
        match r {
            Ok(s) => is_sfb(data@) && s.title_id@ == field_text(data@.subrange(0x220, 0x230))
                && s.version@ == field_text(data@.subrange(0x230, 0x240)),
            Err(e) => !is_sfb(data@) && e@ == "Not a PS3_DISC.SFB file"@,
        },
{
    if data.len() < 0x240 || !spells_at(data, 0, ".SFB") {
        return Err("Not a PS3_DISC.SFB file".to_owned());
    }
    Ok(
        Sfb {
            title_id: trim_nul(slice_subrange(data, 0x220, 0x230)),
            version: trim_nul(slice_subrange(data, 0x230, 0x240)),
        },
    )
}

/// The name of a disc: the title parameter, or else the title identifier.
pub open spec fn title_of(sfo: Option<Seq<(Seq<char>, SfoValueView)>>, id: Option<Seq<char>>) -> Seq<
    char,
> {
    let title = match sfo {
        None => seq![],
        Some(t) => match catalog::record_at(t, "TITLE"@) {
            Some(v) => value_text(v),
            None => seq![],
        },
    };
    if title.len() > 0 {
        title
    } else {
        match id {
            Some(s) => s,
            None => seq![],
        }
    }
}

/// The name of a disc, from whichever of the two files there is.
pub fn disc_title(sfo: Option<&Sfo>, sfb: Option<&Sfb>) -> (r: String)
    ensures
        r@ == title_of(
            match sfo {
                Some(m) => Some(m.table@.files),
                None => None,
            },
            match sfb {
                Some(s) => Some(s.title_id@),
                None => None,
            },
        ),
{
    if let Some(m) = sfo {
        if let Some(v) = m.get("TITLE") {
            let t: String = v.as_text();
            let letters: Vec<char> = chars_of(t.as_str());
            if letters.len() > 0 {
                return t;
            }
        }
    }
    match sfb {
        Some(s) => s.title_id.clone(),
        None => {
            let none: String = String::new();
            assert(none@ =~= seq![]);
            none
        },
    }
}

/// The length of the content that a `PS3_DISC.SFB` records.
pub fn sfb_content_length(data: &[u8]) -> (r: Option<u32>)
    ensures
        r == if data@.len() >= 0x3C {
            Some(bytes::be32_at(data@, 0x38) as u32)
        } else {
            None
        },
{
    if data.len() < 0x3C {
        None
    } else {
        Some(read_u32_be(data, 0x38))
    }
}

/// The parameters of a `PARAM.SFO` stand in ascending order of their keys, each key once.
pub proof fn parameters_are_in_order(d: Seq<u8>)
    ensures
        sfo_parsed(d) matches Ok(t) ==> catalog::ascending(catalog::keys(t)),
{
    lemma_parameters_in_order(d, 0, bytes::le32_at(d, 16), seq![]);
}

proof fn lemma_parameters_in_order(
    d: Seq<u8>,
    i: int,
    n: int,
    t: Seq<(Seq<char>, SfoValueView)>,
)
    requires
        catalog::ascending(catalog::keys(t)),
    ensures
        catalog::ascending(catalog::keys(parameters_from(d, i, n, t))),
    decreases n - i,
{
    if 0 <= i < n {
        match parameter(d, i) {
            None => {
                lemma_parameters_in_order(d, i + 1, n, t);
            },
            Some((k, v)) => {
                catalog::storing_a_record_keeps_the_order(t, k, v);
                lemma_parameters_in_order(d, i + 1, n, catalog::with_record(t, k, v));
            },
        }
    }
}

/// A parameter holds what was written: its entry of sixteen bytes tells where its key and its
/// value stand, counted from where the header says that keys and values start.
pub proof fn a_parameter_holds_what_was_written(
    d: Seq<u8>,
    i: int,
    keys: int,
    values: int,
    key_at: int,
    format: int,
    raw: Seq<u8>,
    value_at: int,
    key: Seq<char>,
)
    requires
        0 <= i,
        20 + 16 * i + 16 <= d.len(),
        0 <= keys <= 0xFFFF_FFFF,
        0 <= values <= 0xFFFF_FFFF,
        0 <= key_at <= 0xFFFF,
        0 <= format <= 0xFFFF,
        0 <= value_at <= 0xFFFF_FFFF,
        raw.len() <= 0xFFFF_FFFF,
        bytes::has_at(d, 8, bytes::le_bytes(keys, 4)),
        bytes::has_at(d, 12, bytes::le_bytes(values, 4)),
        bytes::has_at(d, 20 + 16 * i, bytes::le_bytes(key_at, 2)),
        bytes::has_at(d, 22 + 16 * i, bytes::le_bytes(format, 2)),
        bytes::has_at(d, 24 + 16 * i, bytes::le_bytes(raw.len() as int, 4)),
        bytes::has_at(d, 32 + 16 * i, bytes::le_bytes(value_at, 4)),
        bytes::has_at(d, values + value_at, raw),
        keys + key_at <= d.len(),
        field_text(d.skip(keys + key_at)) == key,
        key.len() > 0,
    ensures
        format == 0x204 || format == 0x004 ==> parameter(d, i) == Some(
            (key, SfoValueView::Text(field_text(raw))),
        ),
        format == 0x404 && raw.len() == 4 ==> parameter(d, i) == Some(
            (
                key,
                SfoValueView::Integer(
                    (raw[0] + 0x100 * raw[1] + 0x1_0000 * raw[2] + 0x100_0000 * raw[3]) as u32,
                ),
            ),
        ),
{
    bytes::fields_hold_what_was_written(d, 8, keys);
    bytes::fields_hold_what_was_written(d, 12, values);
    bytes::fields_hold_what_was_written(d, 20 + 16 * i, key_at);
    bytes::fields_hold_what_was_written(d, 22 + 16 * i, format);
    bytes::fields_hold_what_was_written(d, 24 + 16 * i, raw.len() as int);
    bytes::fields_hold_what_was_written(d, 32 + 16 * i, value_at);
    assert(d.subrange(values + value_at, values + value_at + raw.len()) =~= raw);
}

/// The number of parameters stands at 16; each is looked at in its turn.
pub proof fn parameters_are_read_in_turn(d: Seq<u8>, n: int)
    requires
        0 <= n <= 0xFFFF_FFFF,
        20 + 16 * n <= d.len(),
        bytes::has_at(d, 0, seq![0u8, 0x50, 0x53, 0x46]),
        bytes::has_at(d, 16, bytes::le_bytes(n, 4)),
    ensures
        sfo_parsed(d) == Ok::<Seq<(Seq<char>, SfoValueView)>, Seq<char>>(
            parameters_from(d, 0, n, seq![]),
        ),
{
    bytes::fields_hold_what_was_written(d, 16, n);
}

} // verus!
