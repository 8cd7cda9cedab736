//! Source-language classification from per-compilation-unit language codes.

use vstd::prelude::*;
use crate::error::Error;
use gimli::{AttributeValue, Dwarf, EndianSlice, RunTimeEndian};
use object::{Object, ObjectSection};

verus! {

/// DWARF language code of C99.
pub const DW_LANG_C99: u16 = 0x000c;

/// DWARF language code of Rust.
pub const DW_LANG_RUST: u16 = 0x001c;

/// How often one language code was seen.
#[derive(Debug, Clone, Copy, PartialEq, Eq, Structural)]
pub struct LanguageCount {
    pub code: u16,
    pub count: u64,
}

/// Language tallies, kept in the order in which each code was first seen.
pub struct LanguageCounts {
    entries: Vec<LanguageCount>,
}

/// Whether some entry carries `code`.
pub open spec fn has_code(entries: Seq<LanguageCount>, code: u16) -> bool {
    exists|k: int| 0 <= k < entries.len() && #[trigger] entries[k].code == code
}

/// No code occurs twice and every entry counts at least one sighting.
pub open spec fn tally_wf(entries: Seq<LanguageCount>) -> bool {
    &&& forall|j: int, k: int|
        0 <= j < k < entries.len() ==> #[trigger] entries[j].code != #[trigger] entries[k].code
    &&& forall|k: int| 0 <= k < entries.len() ==> #[trigger] entries[k].count >= 1
}

/// The tallies after one more sighting of `code`: its entry grows by one, or a
/// new entry is appended behind all earlier ones.
pub open spec fn bump(entries: Seq<LanguageCount>, code: u16) -> Seq<LanguageCount> {
    if has_code(entries, code) {
        let k = choose|k: int| 0 <= k < entries.len() && #[trigger] entries[k].code == code;
        entries.update(k, LanguageCount { code, count: (entries[k].count + 1) as u64 })
    } else {
        entries.push(LanguageCount { code, count: 1 })
    }
}

/// The tallies of a whole sequence of sightings, taken from first to last.
pub open spec fn tally_of(codes: Seq<u16>) -> Seq<LanguageCount>
    decreases codes.len(),
{
    if codes.len() == 0 {
        Seq::empty()
    } else {
        bump(tally_of(codes.drop_last()), codes.last())
    }
}

/// How often `code` occurs among the sightings.
pub open spec fn occurrences(codes: Seq<u16>, code: u16) -> nat
    decreases codes.len(),
{
    if codes.len() == 0 {
        0
    } else {
        occurrences(codes.drop_last(), code) + if codes.last() == code {
            1nat
        } else {
            0nat
        }
    }
}

/// No code occurs more often than there are sightings.
proof fn lemma_occurrences_bounded(codes: Seq<u16>, code: u16)
    ensures
        occurrences(codes, code) <= codes.len(),
    decreases codes.len(),
{
    if codes.len() > 0 {
        lemma_occurrences_bounded(codes.drop_last(), code);
    }
}

/// What a tally means: it holds one entry for each code that was sighted,
/// each entry counts the sightings of its code, and one more sighting leaves
/// the earlier entries in their places.
pub proof fn law_tally_counts(codes: Seq<u16>)
    requires
        codes.len() <= u64::MAX,
    ensures
        tally_wf(tally_of(codes)),
        forall|k: int|
            0 <= k < tally_of(codes).len() ==> (#[trigger] tally_of(codes)[k]).count
                == occurrences(codes, tally_of(codes)[k].code),
        forall|code: u16| has_code(tally_of(codes), code) <==> occurrences(codes, code) > 0,
        codes.len() > 0 ==> tally_of(codes.drop_last()).len() <= tally_of(codes).len() && forall|
            k: int,
        |
            0 <= k < tally_of(codes.drop_last()).len() ==> (#[trigger] tally_of(codes)[k]).code
                == tally_of(codes.drop_last())[k].code,
    decreases codes.len(),
{
    if codes.len() > 0 {
        let earlier = codes.drop_last();
        let code = codes.last();
        let before = tally_of(earlier);
        let after = tally_of(codes);
        law_tally_counts(earlier);
        assert(after == bump(before, code));
        if has_code(before, code) {
            let k = choose|k: int| 0 <= k < before.len() && #[trigger] before[k].code == code;
            lemma_occurrences_bounded(earlier, code);
            assert(before[k].count == occurrences(earlier, code));
            assert forall|c: u16| has_code(after, c) <==> occurrences(codes, c) > 0 by {
                if has_code(after, c) {
                    let j = choose|j: int| 0 <= j < after.len() && #[trigger] after[j].code == c;
                    assert(before[j].code == c);
                    assert(has_code(before, c));
                }
                if occurrences(codes, c) > 0 {
                    if c == code {
                        assert(after[k].code == c);
                    } else {
                        assert(has_code(before, c));
                        let j = choose|j: int|
                            0 <= j < before.len() && #[trigger] before[j].code == c;
                        assert(after[j].code == c);
                    }
                }
            }
        } else {
            assert(occurrences(earlier, code) == 0);
            assert forall|c: u16| has_code(after, c) <==> occurrences(codes, c) > 0 by {
                if has_code(after, c) {
                    let j = choose|j: int| 0 <= j < after.len() && #[trigger] after[j].code == c;
                    if j < before.len() {
                        assert(before[j].code == c);
                        assert(has_code(before, c));
                    }
                }
                if occurrences(codes, c) > 0 {
                    if c == code {
                        assert(after[before.len() as int].code == c);
                    } else {
                        assert(has_code(before, c));
                        let j = choose|j: int|
                            0 <= j < before.len() && #[trigger] before[j].code == c;
                        assert(after[j].code == c);
                    }
                }
            }
            assert forall|j: int, k: int| 0 <= j < k < after.len() implies #[trigger] after[j].code
                != #[trigger] after[k].code by {
                if k == before.len() {
                    assert(before[j].code != code);
                }
            }
        }
    }
}

/// Entry `k` takes part in the vote: C99 does not when Rust is present, since
/// it then only stands for the statically linked C runtime.
pub open spec fn considered(entries: Seq<LanguageCount>, k: int) -> bool {
    &&& 0 <= k < entries.len()
    &&& !(entries[k].code == DW_LANG_C99 && has_code(entries, DW_LANG_RUST))
}

/// Entry `k` wins the vote: no considered entry counts more, and none that
/// was seen earlier counts as much.
pub open spec fn is_dominant(entries: Seq<LanguageCount>, k: int) -> bool {
    &&& considered(entries, k)
    &&& forall|j: int| #[trigger]
        considered(entries, j) ==> entries[j].count <= entries[k].count && (j < k
            ==> entries[j].count < entries[k].count)
}

/// The code of the winning entry, if any entry wins.
pub open spec fn dominant_code(entries: Seq<LanguageCount>) -> Option<u16> {
    if exists|k: int| is_dominant(entries, k) {
        Some(entries[choose|k: int| is_dominant(entries, k)].code)
    } else {
        None
    }
}

/// At most one entry wins the vote.
pub proof fn law_dominant_unique(entries: Seq<LanguageCount>, j: int, k: int)
    requires
        is_dominant(entries, j),
        is_dominant(entries, k),
    ensures
        j == k,
{
    if j < k {
        assert(considered(entries, j));
        assert(considered(entries, k));
    } else if k < j {
        assert(considered(entries, j));
        assert(considered(entries, k));
    }
}

/// C99 never wins where Rust was seen.
pub proof fn law_c99_yields_to_rust(entries: Seq<LanguageCount>)
    requires
        has_code(entries, DW_LANG_RUST),
    ensures
        dominant_code(entries) != Some(DW_LANG_C99),
{
    if exists|k: int| is_dominant(entries, k) {
        let k = choose|k: int| is_dominant(entries, k);
        assert(considered(entries, k));
    }
}

/// Entry `b` is the best of the first `upto` entries.
spec fn best_among(entries: Seq<LanguageCount>, upto: int, b: int) -> bool {
    &&& 0 <= b < upto
    &&& considered(entries, b)
    &&& forall|j: int|
        0 <= j < upto && #[trigger] considered(entries, j) ==> entries[j].count
            <= entries[b].count && (j < b ==> entries[j].count < entries[b].count)
}

proof fn lemma_best_exists(entries: Seq<LanguageCount>, upto: int, k: int) -> (b: int)
    requires
        0 <= k < upto <= entries.len(),
        considered(entries, k),
    ensures
        best_among(entries, upto, b),
    decreases upto,
{
    let last = upto - 1;
    if k == last {
        if exists|e: int| 0 <= e < last && considered(entries, e) {
            let e = choose|e: int| 0 <= e < last && considered(entries, e);
            let b = lemma_best_exists(entries, last, e);
            if entries[last].count > entries[b].count {
                last
            } else {
                b
            }
        } else {
            last
        }
    } else {
        let b = lemma_best_exists(entries, last, k);
        if considered(entries, last) && entries[last].count > entries[b].count {
            last
        } else {
            b
        }
    }
}

/// Where some entry takes part in the vote, some entry wins it.
pub proof fn law_dominant_exists(entries: Seq<LanguageCount>)
    requires
        exists|k: int| considered(entries, k),
    ensures
        dominant_code(entries) is Some,
{
    let k = choose|k: int| considered(entries, k);
    let b = lemma_best_exists(entries, entries.len() as int, k);
    assert(is_dominant(entries, b));
}

impl View for LanguageCounts {
    type V = Seq<LanguageCount>;

    closed spec fn view(&self) -> Seq<LanguageCount> {
        self.entries@
    }
}

impl LanguageCounts {
    /// The invariant that every constructor establishes.
    pub open spec fn wf(&self) -> bool {
        tally_wf(self@)
    }

    /// A tally without any sighting.
    pub fn new() -> (counts: LanguageCounts)
        ensures
            counts@ == Seq::<LanguageCount>::empty(),
            counts.wf(),
    {
        LanguageCounts { entries: Vec::new() }
    }

    /// The number of distinct codes seen.
    pub fn len(&self) -> (n: usize)
        ensures
            n == self@.len(),
    {
        self.entries.len()
    }

    /// The `k`-th entry in first-seen order.
    pub fn entry(&self, k: usize) -> (e: LanguageCount)
        requires
            k < self@.len(),
        ensures
            e == self@[k as int],
    {
        self.entries[k]
    }

    /// Position of `code` among the entries, if it was seen.
    pub fn position(&self, code: u16) -> (at: Option<usize>)
        ensures
            at.is_some() == has_code(self@, code),
            at.is_some() ==> at.unwrap() < self@.len() && self@[at.unwrap() as int].code == code,
    {
        let mut i: usize = 0;
        while i < self.entries.len()
            invariant
                i <= self.entries.len(),
                forall|k: int| 0 <= k < i ==> (#[trigger] self.entries@[k]).code != code,
            decreases self.entries.len() - i,
        {
            if self.entries[i].code == code {
                return Some(i);
            }
            i += 1;
        }
        None
    }

    /// The code that wins the vote, if any entry takes part in it.
    pub fn dominant_language(&self) -> (winner: Option<u16>)
        requires
            self.wf(),
        ensures
            winner == dominant_code(self@),
            winner.is_none() <==> forall|k: int| !#[trigger] considered(self@, k),
    {
        let rust_seen = self.position(DW_LANG_RUST).is_some();
        let mut best: Option<usize> = None;
        let mut i: usize = 0;
        while i < self.entries.len()
            invariant
                i <= self.entries.len(),
                rust_seen == has_code(self@, DW_LANG_RUST),
                best.is_none() ==> forall|j: int| 0 <= j < i ==> !#[trigger] considered(self@, j),
                best.is_some() ==> best.unwrap() < i && considered(self@, best.unwrap() as int),
                best.is_some() ==> forall|j: int|
                    0 <= j < i && #[trigger] considered(self@, j) ==> self@[j].count
                        <= self@[best.unwrap() as int].count && (j < best.unwrap()
                        ==> self@[j].count < self@[best.unwrap() as int].count),
            decreases self.entries.len() - i,
        {
            let e = self.entries[i];
            if !(e.code == DW_LANG_C99 && rust_seen) {
                match best {
                    None => {
                        best = Some(i);
                    },
                    Some(b) => {
                        if e.count > self.entries[b].count {
                            best = Some(i);
                        }
                    },
                }
            }
            i += 1;
        }
        match best {
            None => {
                assert(forall|k: int| is_dominant(self@, k) ==> considered(self@, k));
                None
            },
            Some(b) => {
                assert(is_dominant(self@, b as int));
                proof {
                    law_dominant_unique(self@, b as int, choose|k: int| is_dominant(self@, k));
                }
                Some(self.entries[b].code)
            },
        }
    }
}

/// Records one more sighting of `language`.
pub fn increment_language_count(map: &mut LanguageCounts, language: u16)
    requires
        old(map).wf(),
        forall|k: int|
            0 <= k < old(map)@.len() && (#[trigger] old(map)@[k]).code == language ==> old(
                map,
            )@[k].count < u64::MAX,
    ensures
        final(map).wf(),
        final(map)@ == bump(old(map)@, language),
{
    match map.position(language) {
        Some(k) => {
            let e = map.entries[k];
            map.entries.set(k, LanguageCount { code: language, count: e.count + 1 });
        },
        None => {
            map.entries.push(LanguageCount { code: language, count: 1 });
        },
    }
}

/// Tallies a run of sightings in the order given.
pub fn tally_languages(codes: &Vec<u16>) -> (counts: LanguageCounts)
    ensures
        counts.wf(),
        counts@ == tally_of(codes@),
{
    let mut counts = LanguageCounts::new();
    let mut i: usize = 0;
    while i < codes.len()
        invariant
            i <= codes.len(),
            counts.wf(),
            counts@ == tally_of(codes@.take(i as int)),
            forall|k: int| 0 <= k < counts@.len() ==> (#[trigger] counts@[k]).count <= i,
        decreases codes.len() - i,
    {
        proof {
            assert(codes@.take(i + 1).drop_last() == codes@.take(i as int));
        }
        increment_language_count(&mut counts, codes[i]);
        i += 1;
    }
    proof {
        assert(codes@.take(i as int) == codes@);
    }
    counts
}

/// The name that DWARF gives a language code, where it has one.
pub uninterp spec fn dw_lang_name(code: u16) -> Option<Seq<char>>;

/// Calls `gimli::DwLang::static_string`: the constant's name for a code that
/// gimli knows, nothing for any other. The contract only names the result.
#[verifier::external_body]
fn language_name(code: u16) -> (name: Option<String>)
    ensures
        match name {
            Some(text) => dw_lang_name(code) == Some(text@),
            None => dw_lang_name(code) is None,
        },
{
    gimli::DwLang(code).static_string().map(|name| name.to_string())
}

/// `text` begins with `prefix`.
pub open spec fn starts_with(text: Seq<char>, prefix: Seq<char>) -> bool {
    prefix.len() <= text.len() && text.subrange(0, prefix.len() as int) == prefix
}

/// Calls `str::strip_prefix`: what follows the prefix where the text begins
/// with it, nothing otherwise.
#[verifier::external_body]
fn strip_prefix(text: &str, prefix: &str) -> (rest: Option<String>)
    ensures
        match rest {
            Some(tail) => starts_with(text@, prefix@) && tail@ == text@.skip(prefix@.len() as int),
            None => !starts_with(text@, prefix@),
        },
{
    text.strip_prefix(prefix).map(|tail| tail.to_string())
}

/// The language named by the winning code of a run of sightings.
pub open spec fn classification(codes: Seq<u16>) -> Result<Seq<char>, Error> {
    match dominant_code(tally_of(codes)) {
        None => Err(Error::LangNotFound),
        Some(code) => match dw_lang_name(code) {
            None => Err(Error::LangNotFound),
            Some(name) => Ok(name),
        },
    }
}

/// The language tag behind a DWARF language name: the name without its
/// `DW_LANG_` prefix.
pub open spec fn tag_of(name: Seq<char>) -> Result<Seq<char>, Error> {
    if starts_with(name, "DW_LANG_"@) {
        Ok(name.skip("DW_LANG_"@.len() as int))
    } else {
        Err(Error::LangNotFound)
    }
}

/// Whether an exec outcome carries the text that a spec outcome states.
pub open spec fn same_text(got: Result<String, Error>, stated: Result<Seq<char>, Error>) -> bool {
    match got {
        Ok(text) => stated == Ok::<Seq<char>, Error>(text@),
        Err(e) => stated == Err::<Seq<char>, Error>(e),
    }
}

/// The dominant source language of a run of per-unit language codes, by its
/// DWARF name.
pub fn classify(codes: &Vec<u16>) -> (language: Result<String, Error>)
    ensures
        same_text(language, classification(codes@)),
{
    let counts = tally_languages(codes);
    let winner = counts.dominant_language();
    match winner {
        None => Err(Error::LangNotFound),
        Some(code) => match language_name(code) {
            None => Err(Error::LangNotFound),
            Some(name) => Ok(name),
        },
    }
}

/// The language tag of a DWARF language name; a name without the prefix
/// names no language.
pub fn language_tag(name: &str) -> (tag: Result<String, Error>)
    ensures
        same_text(tag, tag_of(name@)),
{
    match strip_prefix(name, "DW_LANG_") {
        Some(tail) => Ok(tail),
        None => Err(Error::LangNotFound),
    }
}

/// One debug section of an object file, uncompressed.
pub struct DebugSection {
    pub name: String,
    pub data: Vec<u8>,
}

/// What the debug-metadata reader needs of an object file.
pub struct DebugSections {
    pub little_endian: bool,
    pub sections: Vec<DebugSection>,
}

/// The mathematical content of [`DebugSections`]: each section as its name
/// and its bytes.
pub struct DebugSectionsView {
    pub little_endian: bool,
    pub sections: Seq<(Seq<char>, Seq<u8>)>,
}

impl View for DebugSections {
    type V = DebugSectionsView;

    open spec fn view(&self) -> DebugSectionsView {
        DebugSectionsView {
            little_endian: self.little_endian,
            sections: Seq::new(
                self.sections@.len(),
                |i: int| (self.sections@[i].name@, self.sections@[i].data@),
            ),
        }
    }
}

impl DebugSections {
    /// Position of the first section called `name`.
    pub fn find(&self, name: &str) -> (at: Option<usize>)
        ensures
            match at {
                Some(k) => k < self.sections@.len() && self.sections@[k as int].name@ == name@
                    && forall|j: int| 0 <= j < k ==> (#[trigger] self.sections@[j]).name@ != name@,
                None => forall|j: int|
                    0 <= j < self.sections@.len() ==> (#[trigger] self.sections@[j]).name@ != name@,
            },
    {
        let wanted = name.to_owned();
        let mut i: usize = 0;
        while i < self.sections.len()
            invariant
                i <= self.sections.len(),
                wanted@ == name@,
                forall|j: int| 0 <= j < i ==> (#[trigger] self.sections@[j]).name@ != name@,
            decreases self.sections.len() - i,
        {
            if self.sections[i].name == wanted {
                return Some(i);
            }
            i += 1;
        }
        None
    }

    /// The bytes of the first section called `name`; none where there is no
    /// such section.
    pub fn section_data(&self, name: &str) -> (bytes: &[u8])
        ensures
            bytes@ == self.data_of(name@),
    {
        match self.find(name) {
            Some(k) => {
                assert(self.first_named(name@, k as int));
                proof {
                    self.lemma_first_named_unique(name@, k as int);
                }
                self.sections[k].data.as_slice()
            },
            None => {
                assert(forall|k: int| !self.first_named(name@, k));
                &[]
            },
        }
    }

    /// Section `k` is the first called `name`.
    pub open spec fn first_named(&self, name: Seq<char>, k: int) -> bool {
        &&& 0 <= k < self.sections@.len()
        &&& self.sections@[k].name@ == name
        &&& forall|j: int| 0 <= j < k ==> (#[trigger] self.sections@[j]).name@ != name
    }

    /// The bytes of the first section called `name`, or none.
    pub open spec fn data_of(&self, name: Seq<char>) -> Seq<u8> {
        if exists|k: int| self.first_named(name, k) {
            self.sections@[choose|k: int| self.first_named(name, k)].data@
        } else {
            Seq::empty()
        }
    }

    proof fn lemma_first_named_unique(&self, name: Seq<char>, k: int)
        requires
            self.first_named(name, k),
        ensures
            (choose|j: int| self.first_named(name, j)) == k,
    {
        let j = choose|j: int| self.first_named(name, j);
        assert(self.first_named(name, j));
        if j < k {
            assert(self.sections@[j].name@ != name);
        } else if k < j {
            assert(self.sections@[k].name@ != name);
        }
    }
}

/// The debug sections that `object` finds in an object file, or nothing
/// where it cannot parse the file.
pub uninterp spec fn object_debug_sections(data: Seq<u8>) -> Option<DebugSectionsView>;

/// The language codes that `gimli` reads from the debug sections, entry by
/// entry in unit order, or nothing where it cannot read them.
pub uninterp spec fn gimli_unit_languages(sections: DebugSectionsView) -> Option<Seq<u16>>;

/// Parses the file with `object::File::parse` and collects, for each section
/// that `gimli::DwarfSections::load` asks for, the section's uncompressed
/// bytes (none where the file has no such section or it cannot be
/// uncompressed). The contract only names the result.
#[verifier::external_body]
fn load_debug_sections(data: &[u8]) -> (loaded: Option<DebugSections>)
    ensures
        match loaded {
            Some(sections) => object_debug_sections(data@) == Some(sections@),
            None => object_debug_sections(data@) is None,
        },
{
    let file = object::File::parse(data).ok()?;
    let mut sections = Vec::new();
    let _ = gimli::DwarfSections::load(|id| -> Result<(), ()> {
        let bytes = file.section_by_name(id.name()).and_then(|s| s.uncompressed_data().ok());
        let data = bytes.map(|b| b.into_owned()).unwrap_or_default();
        sections.push(DebugSection { name: id.name().to_string(), data });
        Ok(())
    });
    Some(DebugSections { little_endian: file.is_little_endian(), sections })
}

/// Reads the sections with `gimli::Dwarf::load`, walks every unit with
/// `Dwarf::units` and `Dwarf::unit` and every entry with
/// `EntriesCursor::next_dfs`, and collects the code of each language
/// attribute that `attr_value` finds; nothing where gimli reports an error.
/// The contract only names the result.
#[verifier::external_body]
fn unit_languages(image: &DebugSections) -> (codes: Option<Vec<u16>>)
    ensures
        match codes {
            Some(list) => gimli_unit_languages(image@) == Some(list@),
            None => gimli_unit_languages(image@) is None,
        },
{
    let endian = if image.little_endian { RunTimeEndian::Little } else { RunTimeEndian::Big };
    let dwarf = Dwarf::load(|id| Ok::<_, gimli::Error>(EndianSlice::new(image.section_data(id.name()), endian))).ok()?;
    let mut codes = Vec::new();
    let mut units = dwarf.units();
    while let Some(header) = units.next().ok()? {
        let unit = dwarf.unit(header).ok()?;
        let mut entries = unit.entries();
        while let Some(entry) = entries.next_dfs().ok()? {
            if let Some(AttributeValue::Language(lang)) = entry.attr_value(gimli::DW_AT_language) {
                codes.push(lang.0);
            }
        }
    }
    Some(codes)
}

/// What the language codes read from debug sections are classified as.
pub open spec fn language_of_sections(sections: DebugSectionsView) -> Result<Seq<char>, Error> {
    match gimli_unit_languages(sections) {
        None => Err(Error::Load),
        Some(codes) => classification(codes),
    }
}

/// What the language codes read from a file are classified as.
pub open spec fn language_of_file(data: Seq<u8>) -> Result<Seq<char>, Error> {
    match object_debug_sections(data) {
        None => Err(Error::Load),
        Some(sections) => language_of_sections(sections),
    }
}

/// The dominant source language that the debug sections record, by its DWARF
/// name.
pub fn analyze_elf_file(sections: &DebugSections) -> (language: Result<String, Error>)
    ensures
        same_text(language, language_of_sections(sections@)),
{
    match unit_languages(sections) {
        None => Err(Error::Load),
        Some(codes) => classify(&codes),
    }
}

/// The dominant source language of an object file, by its DWARF name.
pub fn dwarf_analysis(data: &[u8]) -> (language: Result<String, Error>)
    ensures
        same_text(language, language_of_file(data@)),
{
    match load_debug_sections(data) {
        None => Err(Error::Load),
        Some(sections) => analyze_elf_file(&sections),
    }
}

} // verus!
