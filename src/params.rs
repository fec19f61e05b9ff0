use crate::error::Error;
use crate::numeric::{i32_of, parse_i32};
use crate::text::{chars_of, same_chars, string_of};
use vstd::prelude::*;

verus! {

/// What the parameter registry knows of one parameter code.
#[derive(Clone, Debug, PartialEq, Eq)]
pub struct Param {
    pub id: i32,
    pub element_id: String,
    pub is_scalar: bool,
}

pub struct ParamView {
    pub id: i32,
    pub element_id: Seq<char>,
    pub is_scalar: bool,
}

impl View for Param {
    type V = ParamView;

    open spec fn view(&self) -> ParamView {
        ParamView { id: self.id, element_id: self.element_id@, is_scalar: self.is_scalar }
    }
}

impl Param {
    pub fn new(id: i32, element_id: String, is_scalar: bool) -> (r: Param)
        ensures
            r.id == id,
            r.element_id@ == element_id@,
            r.is_scalar == is_scalar,
    {
        Param { id, element_id, is_scalar }
    }
}

struct RegistryEntry {
    code: Vec<char>,
    param: Param,
}

/// The parameter registry: parameter code to parameter, where an entry
/// added later overrides an earlier one with the same code.
pub struct ParamRegistry {
    entries: Vec<RegistryEntry>,
}

/// The parameter registered last under `code`, if any.
pub open spec fn registry_lookup(entries: Seq<(Seq<char>, ParamView)>, code: Seq<char>) -> Option<
    ParamView,
>
    decreases entries.len(),
{
    if entries.len() == 0 {
        None
    } else if entries.last().0 == code {
        Some(entries.last().1)
    } else {
        registry_lookup(entries.drop_last(), code)
    }
}

/// Whether `code` is registered as a scalar parameter.
pub open spec fn is_scalar_code(entries: Seq<(Seq<char>, ParamView)>, code: Seq<char>) -> bool {
    match registry_lookup(entries, code) {
        Some(p) => p.is_scalar,
        None => false,
    }
}

impl View for ParamRegistry {
    type V = Seq<(Seq<char>, ParamView)>;

    closed spec fn view(&self) -> Seq<(Seq<char>, ParamView)> {
        self.entries@.map_values(|e: RegistryEntry| (e.code@, e.param@))
    }
}

impl ParamRegistry {
    pub fn new() -> (r: ParamRegistry)
        ensures
            r@ == Seq::<(Seq<char>, ParamView)>::empty(),
    {
        let r = ParamRegistry { entries: Vec::new() };
        assert(r@ =~= Seq::<(Seq<char>, ParamView)>::empty());
        r
    }

    /// Registers `param` under `code`, overriding an earlier entry.
    pub fn insert(&mut self, code: &str, param: Param)
        ensures
            final(self)@ == old(self)@.push((code@, param@)),
    {
        let e = RegistryEntry { code: chars_of(code), param };
        self.entries.push(e);
        assert(final(self)@ =~= old(self)@.push((code@, param@)));
    }

    /// The parameter registered under `code`.
    pub fn get(&self, code: &[char]) -> (r: Option<&Param>)
        ensures
            match r {
                Some(p) => registry_lookup(self@, code@) == Some(p@),
                None => registry_lookup(self@, code@) is None,
            },
    {
        let mut i: usize = self.entries.len();
        assert(self@.take(i as int) =~= self@);
        while i > 0
            invariant
                0 <= i <= self.entries@.len(),
                self@.len() == self.entries@.len(),
                registry_lookup(self@, code@) == registry_lookup(self@.take(i as int), code@),
            decreases i,
        {
            assert(self@.take(i as int).drop_last() =~= self@.take(i as int - 1));
            assert(self@[i as int - 1] == (self.entries@[i as int - 1].code@, self.entries@[i
                as int - 1].param@));
            if same_chars(self.entries[i - 1].code.as_slice(), code) {
                return Some(&self.entries[i - 1].param);
            }
            i -= 1;
        }
        assert(self@.take(0) =~= Seq::<(Seq<char>, ParamView)>::empty());
        None
    }

    /// The parameter registered under `code`.
    pub fn get_str(&self, code: &str) -> (r: Option<&Param>)
        ensures
            match r {
                Some(p) => registry_lookup(self@, code@) == Some(p@),
                None => registry_lookup(self@, code@) is None,
            },
    {
        let cs = chars_of(code);
        self.get(cs.as_slice())
    }
}

/// The entry a registry record describes: parameter id, parameter code,
/// element id, and `t` or `f` for whether the parameter is scalar.
pub open spec fn record_entry(rec: Seq<Seq<char>>) -> Option<(Seq<char>, ParamView)> {
    if rec.len() >= 4 && i32_of(rec[0]) is Some && (rec[3] == seq!['t'] || rec[3] == seq!['f']) {
        Some(
            (
                rec[1],
                ParamView {
                    id: i32_of(rec[0])->0,
                    element_id: rec[2],
                    is_scalar: rec[3] == seq!['t'],
                },
            ),
        )
    } else {
        None
    }
}

/// The registry the records describe, in order; `None` if one is ill-formed.
pub open spec fn registry_of(recs: Seq<Seq<Seq<char>>>) -> Option<Seq<(Seq<char>, ParamView)>>
    decreases recs.len(),
{
    if recs.len() == 0 {
        Some(Seq::empty())
    } else {
        match (registry_of(recs.drop_last()), record_entry(recs.last())) {
            (Some(prev), Some(e)) => Some(prev.push(e)),
            _ => None,
        }
    }
}

proof fn lemma_registry_prefix(recs: Seq<Seq<Seq<char>>>, k: int)
    requires
        0 <= k <= recs.len(),
        registry_of(recs.take(k)) is None,
    ensures
        registry_of(recs) is None,
    decreases recs.len(),
{
    if k == recs.len() {
        assert(recs.take(k) =~= recs);
    } else {
        assert(recs.drop_last().take(k) =~= recs.take(k));
        lemma_registry_prefix(recs.drop_last(), k);
    }
}

/// The records of a CSV text with a header row, each as its fields.
pub uninterp spec fn csv_records_of(text: Seq<char>) -> Option<Seq<Seq<Seq<char>>>>;

/// Relies on `csv::Reader::records` over the bytes of `text`: the first row
/// is a header and is skipped, each other row gives its fields; a malformed
/// text gives an error.
#[verifier::external_body]
fn csv_rows(text: &str) -> (r: Option<Vec<Vec<String>>>)
    ensures
        match r {
            Some(rows) => csv_records_of(text@) == Some(rows.deep_view()),
            None => csv_records_of(text@) is None,
        },
{
    let mut reader = csv::Reader::from_reader(text.as_bytes());
    let rows: Result<Vec<Vec<String>>, csv::Error> = reader.records().map(
        |rec| rec.map(|rec| rec.iter().map(|f| f.to_string()).collect()),
    ).collect();
    rows.ok()
}

fn is_single(s: &String, c: char) -> (r: bool)
    ensures
        r == (s@ == seq![c]),
{
    let cs = chars_of(s.as_str());
    if cs.len() == 1 && cs[0] == c {
        assert(cs@ =~= seq![c]);
        true
    } else {
        false
    }
}

impl ParamRegistry {
    /// Builds the registry from records of parameter id, parameter code,
    /// element id and scalar flag.
    pub fn from_records(records: &Vec<Vec<String>>) -> (r: Result<ParamRegistry, Error>)
        ensures
            match registry_of(records.deep_view()) {
                Some(entries) => r is Ok && r->Ok_0@ == entries,
                None => r is Err && r->Err_0 is Config,
            },
    {
        let mut reg = ParamRegistry::new();
        let mut i: usize = 0;
        assert(records.deep_view().take(0) =~= Seq::<Seq<Seq<char>>>::empty());
        while i < records.len()
            invariant
                0 <= i <= records@.len(),
                records.deep_view().len() == records@.len(),
                registry_of(records.deep_view().take(i as int)) == Some(reg@),
            decreases records@.len() - i,
        {
            let rec = &records[i];
            let ghost recs = records.deep_view();
            proof {
                if record_entry(recs[i as int]) is None {
                    lemma_registry_prefix(recs, i as int + 1);
                }
            }
            assert(recs.take(i as int + 1).drop_last() =~= recs.take(i as int));
            assert(recs.take(i as int + 1).last() == rec.deep_view());
            assert(rec.deep_view().len() == rec@.len());
            if rec.len() < 4 {
                return Err(Error::Config(string_of(&['s', 'h', 'o', 'r', 't', ' ', 'r', 'e', 'c', 'o', 'r', 'd'])));
            }
            assert(rec.deep_view()[0] == rec@[0]@);
            assert(rec.deep_view()[1] == rec@[1]@);
            assert(rec.deep_view()[2] == rec@[2]@);
            assert(rec.deep_view()[3] == rec@[3]@);
            let id_chars = chars_of(rec[0].as_str());
            let id = match parse_i32(id_chars.as_slice()) {
                Some(v) => v,
                None => {
                    return Err(Error::Config(string_of(&['b', 'a', 'd', ' ', 'i', 'd'])));
                },
            };
            let is_scalar = if is_single(&rec[3], 't') {
                true
            } else if is_single(&rec[3], 'f') {
                false
            } else {
                return Err(Error::Config(string_of(&['b', 'a', 'd', ' ', 'f', 'l', 'a', 'g'])));
            };
            let element_id = string_of(chars_of(rec[2].as_str()).as_slice());
            reg.insert(rec[1].as_str(), Param::new(id, element_id, is_scalar));
            i += 1;
        }
        assert(records.deep_view().take(records@.len() as int) =~= records.deep_view());
        Ok(reg)
    }
}

/// Builds the parameter registry from the text of its CSV resource file.
pub fn load_registry(text: &str) -> (r: Result<ParamRegistry, Error>)
    ensures
        match csv_records_of(text@) {
            Some(recs) => match registry_of(recs) {
                Some(entries) => r is Ok && r->Ok_0@ == entries,
                None => r is Err && r->Err_0 is Config,
            },
            None => r is Err && r->Err_0 is Config,
        },
{
    match csv_rows(text) {
        Some(rows) => ParamRegistry::from_records(&rows),
        None => Err(Error::Config(string_of(&['m', 'a', 'l', 'f', 'o', 'r', 'm', 'e', 'd', ' ', 'c', 's', 'v']))),
    }
}

} // verus!
