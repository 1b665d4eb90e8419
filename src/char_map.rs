use crate::error::ChawuekError;
use std::collections::BTreeMap;
use std::collections::HashMap;
use vstd::prelude::*;

verus! {

broadcast use vstd::std_specs::hash::group_hash_axioms;

/// The characters for which `char::is_ascii_punctuation` holds: the code
/// points U+0021 to U+002F, U+003A to U+0040, U+005B to U+0060 and
/// U+007B to U+007E.
pub open spec fn is_ascii_punct(c: char) -> bool {
    let v = c as u32;
    ||| 0x21 <= v <= 0x2F
    ||| 0x3A <= v <= 0x40
    ||| 0x5B <= v <= 0x60
    ||| 0x7B <= v <= 0x7E
}

/// Relies on `char::is_ascii_punctuation`, whose documentation lists the
/// four ranges of `is_ascii_punct`.
pub assume_specification[ char::is_ascii_punctuation ](c: &char) -> (r: bool)
    ensures
        r == is_ascii_punct(*c),
;

/// What a character table is: the three reserved indices and the lookup
/// table from a character's code point to its index.
pub struct CharTable {
    pub punc: i64,
    pub unk: i64,
    pub pad: i64,
    pub table: Map<u32, i64>,
}

/// The index that represents `c`: punctuation first, then the lookup
/// table, then the unknown index.
pub open spec fn index_of(t: CharTable, c: char) -> i64 {
    if is_ascii_punct(c) {
        t.punc
    } else if t.table.contains_key(c as u32) {
        t.table[c as u32]
    } else {
        t.unk
    }
}

/// The key of the index given to every ASCII punctuation mark.
pub open spec fn punc_key() -> Seq<char> {
    seq!['<', 'P', 'U', 'N', 'C', '>']
}

/// The key of the index given to characters that the table lacks.
pub open spec fn unk_key() -> Seq<char> {
    seq!['<', 'U', 'N', 'K', '>']
}

/// The key of the index reserved for padding.
pub open spec fn pad_key() -> Seq<char> {
    seq!['<', 'P', 'A', 'D', '>']
}

/// The value of the first entry whose key is `key`.
pub open spec fn lookup_key(es: Seq<(Seq<char>, i64)>, key: Seq<char>) -> Option<i64>
    decreases es.len(),
{
    if es.len() == 0 {
        None
    } else if es[0].0 == key {
        Some(es[0].1)
    } else {
        lookup_key(es.drop_first(), key)
    }
}

/// The lookup table that the entries with a one-character key make,
/// taken in order, so that a later entry for a character wins.
pub open spec fn single_char_table(es: Seq<(Seq<char>, i64)>) -> Map<u32, i64>
    decreases es.len(),
{
    if es.len() == 0 {
        Map::empty()
    } else {
        let m = single_char_table(es.drop_last());
        let k = es.last().0;
        if k.len() == 1 {
            m.insert(k[0] as u32, es.last().1)
        } else {
            m
        }
    }
}

/// Whether all three reserved keys occur among the entries.
pub open spec fn has_special_symbols(es: Seq<(Seq<char>, i64)>) -> bool {
    &&& lookup_key(es, punc_key()) is Some
    &&& lookup_key(es, pad_key()) is Some
    &&& lookup_key(es, unk_key()) is Some
}

/// The table that a character map with all reserved keys describes.
pub open spec fn table_of(es: Seq<(Seq<char>, i64)>) -> CharTable {
    CharTable {
        punc: lookup_key(es, punc_key())->Some_0,
        unk: lookup_key(es, unk_key())->Some_0,
        pad: lookup_key(es, pad_key())->Some_0,
        table: single_char_table(es),
    }
}

/// Whether `e` reports that the reserved key `key` is missing.
pub open spec fn is_missing_symbol(e: ChawuekError, key: Seq<char>) -> bool {
    &&& e is CannotFindSpecialSymbolInCharMap
    &&& e->CannotFindSpecialSymbolInCharMap_0@ == key
}

/// The outcome of building a table from the entries of a character map:
/// the reserved keys are looked for in the order punctuation, padding,
/// unknown, and the first one missing is reported.
pub open spec fn load_outcome(es: Seq<(Seq<char>, i64)>, r: Result<CharToXi, ChawuekError>) -> bool {
    if lookup_key(es, punc_key()) is None {
        r is Err && is_missing_symbol(r->Err_0, punc_key())
    } else if lookup_key(es, pad_key()) is None {
        r is Err && is_missing_symbol(r->Err_0, pad_key())
    } else if lookup_key(es, unk_key()) is None {
        r is Err && is_missing_symbol(r->Err_0, unk_key())
    } else {
        r is Ok && r->Ok_0@ == table_of(es)
    }
}

/// The entries that `serde_json` reads from a text holding one object
/// whose values are all integers that fit in `i64`, in ascending key order;
/// `None` where the text is not such an object.
pub uninterp spec fn json_int_object(text: Seq<char>) -> Option<Seq<(Seq<char>, i64)>>;

/// The error that `serde_json` reports; it is carried, never looked into.
#[verifier::external_type_specification]
#[verifier::external_body]
pub struct ExJsonError(serde_json::Error);

/// Relies on `serde_json::from_str` to read the text into a
/// `BTreeMap<String, i64>`, whose entries are handed on in key order.
#[verifier::external_body]
fn parse_char_map(text: &str) -> (r: Result<Vec<(String, i64)>, serde_json::Error>)
    ensures
        match json_int_object(text@) {
            None => r is Err,
            Some(es) => r is Ok && r->Ok_0.deep_view() == es,
        },
{
    match serde_json::from_str::<BTreeMap<String, i64>>(text) {
        Ok(m) => Ok(m.into_iter().collect()),
        Err(e) => Err(e),
    }
}

/// Maps characters to the indices that the classifier was trained on.
#[derive(Debug)]
pub struct CharToXi {
    punc_i: i64,
    unk_i: i64,
    pad_i: i64,
    char_ix_map: HashMap<u32, i64>,
}

impl View for CharToXi {
    type V = CharTable;

    closed spec fn view(&self) -> CharTable {
        CharTable {
            punc: self.punc_i,
            unk: self.unk_i,
            pad: self.pad_i,
            table: self.char_ix_map@,
        }
    }
}

impl CharToXi {
    /// The value of the entry whose key is `sym`.
    pub fn get_special_symbol(imm: &Vec<(String, i64)>, sym: &str) -> (r: Result<i64, ChawuekError>)
        ensures
            match lookup_key(imm.deep_view(), sym@) {
                Some(v) => r == Ok::<i64, ChawuekError>(v),
                None => r is Err && is_missing_symbol(r->Err_0, sym@),
            },
    {
        let key = sym.to_owned();
        let ghost es = imm.deep_view();
        assert(es.subrange(0, es.len() as int) =~= es);
        let mut i: usize = 0;
        while i < imm.len()
            invariant
                i <= imm.len(),
                es == imm.deep_view(),
                key@ == sym@,
                lookup_key(es, sym@) == lookup_key(es.subrange(i as int, es.len() as int), sym@),
            decreases imm.len() - i,
        {
            let ghost rest = es.subrange(i as int, es.len() as int);
            assert(rest.drop_first() =~= es.subrange(i + 1, es.len() as int));
            if imm[i].0 == key {
                return Ok(imm[i].1);
            }
            i = i + 1;
        }
        Err(ChawuekError::CannotFindSpecialSymbolInCharMap(key))
    }

    /// Builds the table from the entries of a character map.
    pub fn from_entries(imm: &Vec<(String, i64)>) -> (r: Result<CharToXi, ChawuekError>)
        ensures
            load_outcome(imm.deep_view(), r),
    {
        let ghost es = imm.deep_view();
        proof {
            reveal_strlit("<PUNC>");
            reveal_strlit("<PAD>");
            reveal_strlit("<UNK>");
            assert("<PUNC>"@ =~= punc_key());
            assert("<PAD>"@ =~= pad_key());
            assert("<UNK>"@ =~= unk_key());
        }
        let punc_i = match Self::get_special_symbol(imm, "<PUNC>") {
            Ok(v) => v,
            Err(e) => return Err(e),
        };
        let pad_i = match Self::get_special_symbol(imm, "<PAD>") {
            Ok(v) => v,
            Err(e) => return Err(e),
        };
        let unk_i = match Self::get_special_symbol(imm, "<UNK>") {
            Ok(v) => v,
            Err(e) => return Err(e),
        };
        let mut char_ix_map: HashMap<u32, i64> = HashMap::new();
        let mut i: usize = 0;
        while i < imm.len()
            invariant
                i <= imm.len(),
                es == imm.deep_view(),
                char_ix_map@ == single_char_table(es.take(i as int)),
            decreases imm.len() - i,
        {
            assert(es.take(i + 1).drop_last() =~= es.take(i as int));
            let k = imm[i].0.as_str();
            if k.unicode_len() == 1 {
                let c = k.get_char(0);
                char_ix_map.insert(c as u32, imm[i].1);
            }
            i = i + 1;
        }
        assert(es.take(es.len() as int) =~= es);
        Ok(CharToXi { punc_i, unk_i, pad_i, char_ix_map })
    }

    /// Reads a character map, a JSON object from keys to integer indices,
    /// into a table.
    pub fn load_char_map(text: &str) -> (r: Result<CharToXi, ChawuekError>)
        ensures
            match json_int_object(text@) {
                None => r == Err::<CharToXi, ChawuekError>(ChawuekError::CannotParseCharMapFile),
                Some(es) => load_outcome(es, r),
            },
    {
        match parse_char_map(text) {
            Ok(imm) => Self::from_entries(&imm),
            Err(_) => Err(ChawuekError::CannotParseCharMapFile),
        }
    }

    /// The reserved index of ASCII punctuation.
    pub fn punctuation_index(&self) -> (r: i64)
        ensures
            r == self@.punc,
    {
        self.punc_i
    }

    /// The reserved index of characters that the table lacks.
    pub fn unknown_index(&self) -> (r: i64)
        ensures
            r == self@.unk,
    {
        self.unk_i
    }

    /// The reserved index of padding.
    pub fn padding_index(&self) -> (r: i64)
        ensures
            r == self@.pad,
    {
        self.pad_i
    }

    /// The index sequence of a character sequence, one index per character.
    pub fn encode(&self, chars: &Vec<char>) -> (r: Vec<i64>)
        ensures
            r@ == chars@.map_values(|c: char| index_of(self@, c)),
    {
        let mut r: Vec<i64> = Vec::new();
        let mut i: usize = 0;
        while i < chars.len()
            invariant
                i <= chars.len(),
                r@ == chars@.take(i as int).map_values(|c: char| index_of(self@, c)),
            decreases chars.len() - i,
        {
            let x = self.to_xi(&chars[i]);
            r.push(x);
            i = i + 1;
            assert(r@ =~= chars@.take(i as int).map_values(|c: char| index_of(self@, c)));
        }
        assert(chars@.take(i as int) =~= chars@);
        r
    }

    /// The index of one character.
    pub fn to_xi(&self, ch: &char) -> (r: i64)
        ensures
            r == index_of(self@, *ch),
            is_ascii_punct(*ch) ==> r == self@.punc,
            !is_ascii_punct(*ch) && !self@.table.contains_key(*ch as u32) ==> r == self@.unk,
    {
        if ch.is_ascii_punctuation() {
            self.punc_i
        } else {
            match self.char_ix_map.get(&(*ch as u32)) {
                Some(v) => *v,
                None => self.unk_i,
            }
        }
    }
}

} // verus!
