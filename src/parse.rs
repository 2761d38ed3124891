//! Manifest parsers: each turns the text of one manifest into the components
//! it declares, every one carrying a copy of the caller's default metadata.

use vstd::prelude::*;
use vstd::string::StringSliceAdditionalSpecFns;
use quick_xml::events::Event;
use quick_xml::Reader;
use crate::meta::{Metadata, MetaModel, meta_view, meta_clone, meta_remove, meta_entries};
use crate::soup::{Soup, SoupModel, soups_view, names_distinct};

verus! {

/// Why a manifest could not be read.
#[derive(Debug)]
pub enum SoupSourceParseError {
    /// A dependency declaration lacks the attribute `key`.
    MissingAttribute { key: String },
    /// The value of attribute `key` is not UTF-8 text.
    InvalidUtf8 { key: String },
    /// The project file is not well-formed XML.
    InvalidXml { message: String },
    /// The package manifest is not a JSON object of the expected shape.
    InvalidJson { message: String },
    /// No parser reads manifests of this file name.
    NoParser { file_name: String },
}

/// The mathematical value of a parse error.
pub enum ParseFailure {
    MissingAttribute(Seq<char>),
    InvalidUtf8(Seq<char>),
    InvalidXml(Seq<char>),
    InvalidJson(Seq<char>),
    NoParser(Seq<char>),
}

impl View for SoupSourceParseError {
    type V = ParseFailure;

    open spec fn view(&self) -> ParseFailure {
        match self {
            SoupSourceParseError::MissingAttribute { key } => ParseFailure::MissingAttribute(key@),
            SoupSourceParseError::InvalidUtf8 { key } => ParseFailure::InvalidUtf8(key@),
            SoupSourceParseError::InvalidXml { message } => ParseFailure::InvalidXml(message@),
            SoupSourceParseError::InvalidJson { message } => ParseFailure::InvalidJson(message@),
            SoupSourceParseError::NoParser { file_name } => ParseFailure::NoParser(file_name@),
        }
    }
}

/// The outcome of a parse, as a mathematical value.
pub open spec fn outcome_view(r: Result<Vec<Soup>, SoupSourceParseError>) -> Result<Seq<SoupModel>, ParseFailure> {
    match r {
        Ok(v) => Ok(soups_view(v@)),
        Err(e) => Err(e@),
    }
}

/// The text of a byte sequence, where it is valid UTF-8.
pub uninterp spec fn utf8_text(b: Seq<u8>) -> Option<Seq<char>>;

/// Relies on String::from_utf8: it succeeds exactly on valid UTF-8, and the
/// text depends on the bytes alone.
#[verifier::external_body]
fn decode_utf8(b: &Vec<u8>) -> (r: Option<String>)
    ensures
        r is Some <==> utf8_text(b@) is Some,
        r is Some ==> utf8_text(b@) == Some(r->Some_0@),
{
    String::from_utf8(b.clone()).ok()
}

/// The value of the last attribute named `key`.
pub open spec fn attribute_lookup(attributes: Seq<(Vec<u8>, Vec<u8>)>, key: Seq<u8>) -> Option<Seq<u8>>
    decreases attributes.len(),
{
    if attributes.len() == 0 {
        None
    } else if attributes.last().0@ == key {
        Some(attributes.last().1@)
    } else {
        attribute_lookup(attributes.drop_last(), key)
    }
}

/// What reading attribute `key` as text gives.
pub open spec fn attribute_text(attributes: Seq<(Vec<u8>, Vec<u8>)>, key: Seq<char>, key_bytes: Seq<u8>) -> Result<Seq<char>, ParseFailure> {
    match attribute_lookup(attributes, key_bytes) {
        None => Err(ParseFailure::MissingAttribute(key)),
        Some(b) => match utf8_text(b) {
            None => Err(ParseFailure::InvalidUtf8(key)),
            Some(t) => Ok(t),
        },
    }
}

fn bytes_equal(a: &Vec<u8>, b: &[u8]) -> (r: bool)
    ensures
        r == (a@ == b@),
{
    if a.len() != b.len() {
        return false;
    }
    let mut i: usize = 0;
    while i < a.len()
        invariant
            i <= a@.len() == b@.len(),
            forall|m: int| 0 <= m < i ==> a@[m] == b@[m],
        decreases a@.len() - i,
    {
        if a[i] != b[i] {
            return false;
        }
        i = i + 1;
    }
    assert(a@ =~= b@);
    true
}

/// Reads attribute `key` of a dependency declaration as text: an error names
/// the key when the attribute is absent or not UTF-8. Where a key occurs more
/// than once, the last occurrence counts.
pub fn attribute_value(attributes: &Vec<(Vec<u8>, Vec<u8>)>, key: &str) -> (r: Result<String, SoupSourceParseError>)
    ensures
        match r {
            Ok(t) => attribute_text(attributes@, key@, key.spec_bytes()) == Ok::<Seq<char>, ParseFailure>(t@),
            Err(e) => attribute_text(attributes@, key@, key.spec_bytes()) == Err::<Seq<char>, ParseFailure>(e@),
        },
{
    let kb = key.as_bytes();
    let mut i = attributes.len();
    assert(attributes@.subrange(0, i as int) =~= attributes@);
    while i > 0
        invariant
            i <= attributes@.len(),
            kb@ == key.spec_bytes(),
            attribute_lookup(attributes@, kb@) == attribute_lookup(attributes@.subrange(0, i as int), kb@),
        decreases i,
    {
        let ghost pre = attributes@.subrange(0, i as int);
        assert(pre.drop_last() =~= attributes@.subrange(0, i - 1));
        if bytes_equal(&attributes[i - 1].0, kb) {
            return match decode_utf8(&attributes[i - 1].1) {
                Some(t) => Ok(t),
                None => Err(SoupSourceParseError::InvalidUtf8 { key: key.to_owned() }),
            };
        }
        i = i - 1;
    }
    Err(SoupSourceParseError::MissingAttribute { key: key.to_owned() })
}

#[verifier::external_type_specification]
#[verifier::external_body]
#[verifier::reject_recursive_types(R)]
pub struct ExXmlReader<R>(quick_xml::Reader<R>);

/// One event of an XML document, as the csproj parser reads it.
#[derive(Debug)]
pub enum XmlEvent {
    /// An opening or self-closing tag: its name and its attributes, `None`
    /// where one is malformed.
    Start { name: Vec<u8>, attributes: Vec<Option<(Vec<u8>, Vec<u8>)>> },
    /// The end of the document.
    Eof,
    /// The document is not well-formed here.
    Invalid { message: String },
    /// Any other event.
    Other,
}

/// The events of an XML document, as `xml_events` reads them.
pub uninterp spec fn document_events(content: Seq<char>) -> Seq<XmlEvent>;

/// Relies on quick_xml::Reader (from_str, read_event_into): the events of the
/// document, a self-closing tag `<a/>` read as the opening tag it holds, up to
/// the document's end or to its first malformed part. They depend on the text
/// alone.
#[verifier::external_body]
fn xml_events(content: &str) -> (r: Vec<XmlEvent>)
    ensures
        r@ == document_events(content@),
{
    let (mut reader, mut buf, mut events) = (Reader::from_str(content), Vec::new(), Vec::new());
    loop {
        match reader.read_event_into(&mut buf) {
            Ok(Event::Start(e) | Event::Empty(e)) => events.push(XmlEvent::Start {
                name: e.name().as_ref().into(),
                attributes: e.attributes().map(|a| a.ok().map(|a| (a.key.into_inner().into(), a.value.as_bytes().into()))).collect(),
            }),
            Ok(Event::Eof) => return events,
            Ok(_) => events.push(XmlEvent::Other),
            Err(e) => return { events.push(XmlEvent::Invalid { message: e.to_string() }); events },
        }
    }
}

/// The well-formed attributes of a tag, in order.
pub open spec fn present_attributes(a: Seq<Option<(Vec<u8>, Vec<u8>)>>) -> Seq<(Vec<u8>, Vec<u8>)>
    decreases a.len(),
{
    if a.len() == 0 {
        Seq::empty()
    } else {
        match a.last() {
            Some(p) => present_attributes(a.drop_last()).push(p),
            None => present_attributes(a.drop_last()),
        }
    }
}

/// The tag that declares a dependency in a project file.
pub open spec fn package_reference_tag() -> Seq<u8> {
    "PackageReference".spec_bytes()
}

/// `acc` already holds a component with this name and version.
pub open spec fn has_soup(acc: Seq<SoupModel>, name: Seq<char>, version: Seq<char>) -> bool {
    exists|k: int| 0 <= k < acc.len() && acc[k].name == name && acc[k].version == version
}

/// What one event does to the components read so far.
pub open spec fn reference_step(acc: Seq<SoupModel>, ev: XmlEvent, dm: MetaModel) -> Result<Seq<SoupModel>, ParseFailure> {
    match ev {
        XmlEvent::Start { name, attributes } => if name@ == package_reference_tag() {
            let at = present_attributes(attributes@);
            match attribute_text(at, "Include"@, "Include".spec_bytes()) {
                Err(e) => Err(e),
                Ok(n) => match attribute_text(at, "Version"@, "Version".spec_bytes()) {
                    Err(e) => Err(e),
                    Ok(v) => if has_soup(acc, n, v) {
                        Ok(acc)
                    } else {
                        Ok(acc.push(SoupModel { name: n, version: v, meta: dm }))
                    },
                },
            }
        } else {
            Ok(acc)
        },
        XmlEvent::Invalid { message } => Err(ParseFailure::InvalidXml(message@)),
        _ => Ok(acc),
    }
}

/// The components that a sequence of events declares, in order of first
/// declaration, or the first error.
pub open spec fn reference_soups(evs: Seq<XmlEvent>, dm: MetaModel) -> Result<Seq<SoupModel>, ParseFailure>
    decreases evs.len(),
{
    if evs.len() == 0 {
        Ok(Seq::empty())
    } else {
        match reference_soups(evs.drop_last(), dm) {
            Err(e) => Err(e),
            Ok(acc) => reference_step(acc, evs.last(), dm),
        }
    }
}

pub(crate) proof fn lemma_error_persists(evs: Seq<XmlEvent>, i: int, dm: MetaModel)
    requires
        0 <= i <= evs.len(),
        reference_soups(evs.subrange(0, i), dm) is Err,
    ensures
        reference_soups(evs, dm) == reference_soups(evs.subrange(0, i), dm),
    decreases evs.len() - i,
{
    if i < evs.len() {
        assert(evs.subrange(0, i + 1).drop_last() =~= evs.subrange(0, i));
        lemma_error_persists(evs, i + 1, dm);
    } else {
        assert(evs.subrange(0, i) =~= evs);
    }
}

fn present_attributes_of(a: Vec<Option<(Vec<u8>, Vec<u8>)>>) -> (r: Vec<(Vec<u8>, Vec<u8>)>)
    ensures
        r@ == present_attributes(a@),
{
    let ghost a0 = a@;
    let mut a = a;
    let mut r: Vec<(Vec<u8>, Vec<u8>)> = Vec::new();
    assert(a0.subrange(0, 0) =~= Seq::<Option<(Vec<u8>, Vec<u8>)>>::empty());
    while a.len() > 0
        invariant
            a@.len() <= a0.len(),
            a@ == a0.subrange(a0.len() - a@.len(), a0.len() as int),
            r@ == present_attributes(a0.subrange(0, a0.len() - a@.len())),
        decreases a@.len(),
    {
        let ghost i = a0.len() - a@.len();
        let x = a.remove(0);
        assert(a0.subrange(0, i + 1).drop_last() =~= a0.subrange(0, i));
        match x {
            Some(p) => r.push(p),
            None => {},
        }
        assert(a@ =~= a0.subrange(a0.len() - a@.len(), a0.len() as int));
    }
    assert(a0.subrange(0, a0.len() as int) =~= a0);
    r
}

fn find_soup(acc: &Vec<Soup>, name: &String, version: &String) -> (r: bool)
    ensures
        r == has_soup(soups_view(acc@), name@, version@),
{
    let mut k: usize = 0;
    while k < acc.len()
        invariant
            k <= acc@.len(),
            forall|m: int| 0 <= m < k ==> !(acc@[m].name@ == name@ && acc@[m].version@ == version@),
        decreases acc@.len() - k,
    {
        if acc[k].name == *name && acc[k].version == *version {
            assert(soups_view(acc@)[k as int].name == name@);
            return true;
        }
        k = k + 1;
    }
    assert forall|m: int| 0 <= m < acc@.len() implies !(soups_view(acc@)[m].name == name@
        && soups_view(acc@)[m].version == version@) by {
        assert(soups_view(acc@)[m] == acc@[m]@);
    }
    false
}

/// Reads the components that a project file's events declare: each
/// `PackageReference` tag gives one component, named by its `Include`
/// attribute and versioned by its `Version` attribute, with a copy of
/// `default_meta`; a repeated declaration adds nothing. A missing attribute or
/// a malformed document is an error.
pub fn soups_from_events(events: Vec<XmlEvent>, default_meta: &Metadata) -> (r: Result<Vec<Soup>, SoupSourceParseError>)
    ensures
        outcome_view(r) == reference_soups(events@, meta_view(*default_meta)),
{
    let ghost e0 = events@;
    let ghost dm = meta_view(*default_meta);
    let mut pending = events;
    let mut acc: Vec<Soup> = Vec::new();
    assert(e0.subrange(0, 0) =~= Seq::<XmlEvent>::empty());
    assert(soups_view(acc@) =~= Seq::<SoupModel>::empty());
    while pending.len() > 0
        invariant
            pending@.len() <= e0.len(),
            e0 == events@,
            pending@ == e0.subrange(e0.len() - pending@.len(), e0.len() as int),
            dm == meta_view(*default_meta),
            reference_soups(e0.subrange(0, e0.len() - pending@.len()), dm) == Ok::<Seq<SoupModel>, ParseFailure>(
                soups_view(acc@),
            ),
        decreases pending@.len(),
    {
        let ghost i = e0.len() - pending@.len();
        let ev = pending.remove(0);
        assert(e0.subrange(0, i + 1).drop_last() =~= e0.subrange(0, i));
        assert(e0.subrange(0, i + 1).last() == ev);
        let ghost gev = ev;
        let ghost before = soups_view(acc@);
        assert(reference_soups(e0.subrange(0, i + 1), dm) == reference_step(before, gev, dm));
        assert(pending@ =~= e0.subrange(e0.len() - pending@.len(), e0.len() as int));
        match ev {
            XmlEvent::Start { name, attributes } => {
                if bytes_equal(&name, "PackageReference".as_bytes()) {
                    let at = present_attributes_of(attributes);
                    let n = match attribute_value(&at, "Include") {
                        Ok(n) => n,
                        Err(e) => {
                            assert(reference_step(before, gev, dm) == Err::<Seq<SoupModel>, ParseFailure>(e@));
                            proof { lemma_error_persists(e0, i + 1, dm); }
                            let r: Result<Vec<Soup>, SoupSourceParseError> = Err(e);
                            assert(outcome_view(r) == reference_soups(e0, dm));
                            return r;
                        },
                    };
                    let v = match attribute_value(&at, "Version") {
                        Ok(v) => v,
                        Err(e) => {
                            assert(reference_step(before, gev, dm) == Err::<Seq<SoupModel>, ParseFailure>(e@));
                            proof { lemma_error_persists(e0, i + 1, dm); }
                            let r: Result<Vec<Soup>, SoupSourceParseError> = Err(e);
                            assert(outcome_view(r) == reference_soups(e0, dm));
                            return r;
                        },
                    };
                    if !find_soup(&acc, &n, &v) {
                        let ghost added = SoupModel { name: n@, version: v@, meta: dm };
                        acc.push(Soup { name: n, version: v, meta: meta_clone(default_meta) });
                        assert(soups_view(acc@) =~= before.push(added));
                    }
                }
            },
            XmlEvent::Invalid { message } => {
                let r: Result<Vec<Soup>, SoupSourceParseError> = Err(SoupSourceParseError::InvalidXml { message });
                assert(reference_step(before, gev, dm) == outcome_view(r));
                proof { lemma_error_persists(e0, i + 1, dm); }
                return r;
            },
            _ => {},
        }
    }
    assert(e0.subrange(0, e0.len() as int) =~= e0);
    Ok(acc)
}

/// The parser of `.csproj` project files.
#[derive(Debug)]
pub struct CsProj {}

impl CsProj {
    /// The components that a project file declares, in order of first
    /// declaration: the outcome is what `soups_from_events` gives on the
    /// document's events.
    pub fn soups(&self, content: &str, default_meta: &Metadata) -> (r: Result<Vec<Soup>, SoupSourceParseError>)
        ensures
            outcome_view(r) == reference_soups(document_events(content@), meta_view(*default_meta)),
    {
        soups_from_events(xml_events(content), default_meta)
    }
}

/// The object that a JSON text holds, where it is one.
pub uninterp spec fn json_object_text(s: Seq<char>) -> Option<MetaModel>;

/// Relies on serde_json::from_str into a `Map`: it succeeds exactly on a JSON
/// text whose top level is an object, and the entries depend on the text alone.
#[verifier::external_body]
fn parse_json_object(content: &str) -> (r: Result<Metadata, String>)
    ensures
        r is Ok <==> json_object_text(content@) is Some,
        r is Ok ==> json_object_text(content@) == Some(meta_view(r->Ok_0)),
{
    serde_json::from_str::<Metadata>(content).map_err(|e| e.to_string())
}

/// The entries of a JSON value that is an object.
pub uninterp spec fn json_object_of(v: serde_json::Value) -> Option<MetaModel>;

/// Relies on serde_json::Value's `Object` variant: only an object gives its map.
#[verifier::external_body]
fn value_into_object(v: serde_json::Value) -> (r: Option<Metadata>)
    ensures
        r is Some <==> json_object_of(v) is Some,
        r is Some ==> json_object_of(v) == Some(meta_view(r->Some_0)),
        json_is_null(v) ==> r is None,
{
    match v {
        serde_json::Value::Object(m) => Some(m),
        _ => None,
    }
}

/// The text of a JSON value that is a string.
pub uninterp spec fn json_text_of(v: serde_json::Value) -> Option<Seq<char>>;

/// Relies on serde_json::Value::as_str: only a string gives its text.
#[verifier::external_body]
fn value_text(v: &serde_json::Value) -> (r: Option<String>)
    ensures
        r is Some <==> json_text_of(*v) is Some,
        r is Some ==> json_text_of(*v) == Some(r->Some_0@),
{
    v.as_str().map(|s| s.to_owned())
}

/// Whether a JSON value is `null`.
pub uninterp spec fn json_is_null(v: serde_json::Value) -> bool;

/// Relies on serde_json::Value::is_null.
#[verifier::external_body]
fn value_is_null(v: &serde_json::Value) -> (r: bool)
    ensures
        r == json_is_null(*v),
{
    v.is_null()
}

/// Every dependency of the object is given a version string.
pub open spec fn all_text(d: MetaModel) -> bool {
    forall|k: Seq<char>| d.contains_key(k) ==> (#[trigger] json_text_of(d[k])) is Some
}

/// The dependencies a package manifest declares, by name, with their version:
/// none where the `dependencies` member is absent or null; `None` where the
/// text is not a JSON object, or the member is not an object of strings.
pub open spec fn manifest_dependencies(content: Seq<char>) -> Option<vstd::map::Map<Seq<char>, Seq<char>>> {
    match json_object_text(content) {
        None => None,
        Some(top) => if !top.contains_key("dependencies"@) || json_is_null(top["dependencies"@]) {
            Some(vstd::map::Map::empty())
        } else {
            match json_object_of(top["dependencies"@]) {
                None => None,
                Some(d) => if all_text(d) {
                    Some(vstd::map::Map::new(|k: Seq<char>| d.contains_key(k), |k: Seq<char>| json_text_of(d[k])->Some_0))
                } else {
                    None
                },
            }
        },
    }
}

/// `s` holds one component for each dependency of `deps`, named and versioned
/// as declared, each with metadata `dm`.
pub open spec fn declares_exactly(s: Seq<SoupModel>, deps: vstd::map::Map<Seq<char>, Seq<char>>, dm: MetaModel) -> bool {
    &&& names_distinct(s)
    &&& forall|j: int| 0 <= j < s.len() ==> deps.contains_key(#[trigger] s[j].name) && deps[s[j].name] == s[j].version
        && s[j].meta == dm
    &&& forall|k: Seq<char>| deps.contains_key(k) ==> exists|j: int| 0 <= j < s.len() && #[trigger] s[j].name == k
}

/// The parser of `package.json` manifests.
#[derive(Debug)]
pub struct PackageJson {}

impl PackageJson {
    /// The components that the `dependencies` member of a package manifest
    /// declares, one per name, each with a copy of `default_meta`. A text that
    /// is not a JSON object, or a member that is neither null nor an object of
    /// strings, is an error.
    pub fn soups(&self, content: &str, default_meta: &Metadata) -> (r: Result<Vec<Soup>, SoupSourceParseError>)
        ensures
            r is Ok <==> manifest_dependencies(content@) is Some,
            r is Ok ==> declares_exactly(soups_view(r->Ok_0@), manifest_dependencies(content@)->Some_0, meta_view(*default_meta)),
            r is Err ==> r->Err_0@ is InvalidJson,
    {
        let ghost dm = meta_view(*default_meta);
        let mut top = match parse_json_object(content) {
            Ok(m) => m,
            Err(message) => {
                return Err(SoupSourceParseError::InvalidJson { message });
            },
        };
        let ghost top0 = meta_view(top);
        let member = match meta_remove(&mut top, "dependencies") {
            Some(v) => v,
            None => {
                let r: Vec<Soup> = Vec::new();
                assert(soups_view(r@) =~= Seq::<SoupModel>::empty());
                return Ok(r);
            },
        };
        let ghost member0 = member;
        assert(top0.contains_key("dependencies"@) && top0["dependencies"@] == member0);
        if value_is_null(&member) {
            let r: Vec<Soup> = Vec::new();
            assert(soups_view(r@) =~= Seq::<SoupModel>::empty());
            return Ok(r);
        }
        let d = match value_into_object(member) {
            Some(d) => d,
            None => {
                return Err(SoupSourceParseError::InvalidJson { message: "dependencies is not an object".to_owned() });
            },
        };
        let ghost d0 = meta_view(d);
        assert(json_object_of(member0) == Some(d0));
        let mut entries = meta_entries(d);
        let ghost e0 = entries@;
        let mut soups: Vec<Soup> = Vec::new();
        while entries.len() > 0
            invariant
                entries@.len() <= e0.len(),
                entries@ == e0.subrange(0, entries@.len() as int),
                dm == meta_view(*default_meta),
                json_object_text(content@) == Some(top0),
                top0.contains_key("dependencies"@) && top0["dependencies"@] == member0,
                !json_is_null(member0),
                json_object_of(member0) == Some(d0),
                soups@.len() == e0.len() - entries@.len(),
                forall|a: int, c: int| 0 <= a < c < e0.len() ==> e0[a].0@ != e0[c].0@,
                forall|a: int|
                    0 <= a < e0.len() ==> d0.contains_key(#[trigger] e0[a].0@) && d0[e0[a].0@] == e0[a].1,
                forall|k: Seq<char>|
                    d0.contains_key(k) ==> exists|a: int| 0 <= a < e0.len() && #[trigger] e0[a].0@ == k,
                forall|j: int| 0 <= j < soups@.len() ==> {
                    let a = e0.len() - 1 - j;
                    &&& (#[trigger] soups@[j]).name@ == e0[a].0@
                    &&& json_text_of(e0[a].1) == Some(soups@[j].version@)
                    &&& meta_view(soups@[j].meta) == dm
                },
            decreases entries@.len(),
        {
            let ghost a = entries@.len() - 1;
            let (name, value) = entries.pop().unwrap();
            assert(e0[a].0@ == name@ && e0[a].1 == value);
            let version = match value_text(&value) {
                Some(t) => t,
                None => {
                    assert(!all_text(d0)) by {
                        assert(d0.contains_key(name@) && json_text_of(d0[name@]) is None);
                    }
                    return Err(SoupSourceParseError::InvalidJson { message: "a dependency version is not a string".to_owned() });
                },
            };
            soups.push(Soup { name, version, meta: meta_clone(default_meta) });
        }
        proof {
            let s = soups_view(soups@);
            assert forall|k: Seq<char>| d0.contains_key(k) implies (#[trigger] json_text_of(d0[k])) is Some by {
                let a = choose|a: int| 0 <= a < e0.len() && #[trigger] e0[a].0@ == k;
                assert(soups@[e0.len() - 1 - a].name@ == k);
            }
            assert forall|x: int, y: int| 0 <= x < y < s.len() implies s[x].name != s[y].name by {
                assert(s[x] == soups@[x]@ && s[y] == soups@[y]@);
            }
            assert forall|k: Seq<char>| d0.contains_key(k) implies exists|j: int| 0 <= j < s.len() && #[trigger] s[j].name == k by {
                let a = choose|a: int| 0 <= a < e0.len() && #[trigger] e0[a].0@ == k;
                let j = e0.len() - 1 - a;
                assert(s[j] == soups@[j]@);
                assert(0 <= j < s.len() && s[j].name == k);
            }
            assert forall|j: int| 0 <= j < s.len() implies d0.contains_key(#[trigger] s[j].name) by {
                assert(s[j] == soups@[j]@);
            }
        }
        Ok(soups)
    }
}

/// The manifest dialect a file name selects.
#[derive(Debug, Clone, Copy, PartialEq, Eq)]
pub enum ManifestKind {
    PackageJson,
    CsProj,
}

/// `name` is `package.json` or ends in `.csproj`; other names select no parser.
pub open spec fn manifest_kind(name: Seq<u8>) -> Option<ManifestKind> {
    if name == "package.json".spec_bytes() {
        Some(ManifestKind::PackageJson)
    } else if name.len() >= ".csproj".spec_bytes().len() && name.subrange(
        name.len() - ".csproj".spec_bytes().len(),
        name.len() as int,
    ) == ".csproj".spec_bytes() {
        Some(ManifestKind::CsProj)
    } else {
        None
    }
}

fn ends_with_bytes(a: &[u8], b: &[u8]) -> (r: bool)
    ensures
        r == (a@.len() >= b@.len() && a@.subrange(a@.len() - b@.len(), a@.len() as int) == b@),
{
    if a.len() < b.len() {
        return false;
    }
    let off = a.len() - b.len();
    let mut i: usize = 0;
    while i < b.len()
        invariant
            off + b@.len() == a@.len(),
            a@.len() == a.len(),
            i <= b@.len(),
            forall|m: int| 0 <= m < i ==> a@[off + m] == b@[m],
        decreases b@.len() - i,
    {
        assert(off + i < a@.len());
        if a[off + i] != b[i] {
            assert(a@.subrange(off as int, a@.len() as int)[i as int] != b@[i as int]);
            return false;
        }
        i = i + 1;
    }
    assert(a@.subrange(off as int, a@.len() as int) =~= b@);
    true
}

/// Selects the parser for a manifest by its file name.
pub fn manifest_kind_of(file_name: &str) -> (r: Option<ManifestKind>)
    ensures
        r == manifest_kind(file_name.spec_bytes()),
{
    let b = file_name.as_bytes();
    let p = "package.json".as_bytes();
    if b.len() == p.len() && ends_with_bytes(b, p) {
        assert(b@.subrange(0, b@.len() as int) =~= b@);
        Some(ManifestKind::PackageJson)
    } else {
        if b.len() == p.len() {
            assert(b@.subrange(0, b@.len() as int) =~= b@);
        }
        if ends_with_bytes(b, ".csproj".as_bytes()) {
            Some(ManifestKind::CsProj)
        } else {
            None
        }
    }
}

/// Reads a manifest with the parser its file name selects; a name that
/// selects none is an error naming the file.
pub fn manifest_soups(file_name: &str, content: &str, default_meta: &Metadata) -> (r: Result<Vec<Soup>, SoupSourceParseError>)
    ensures
        manifest_kind(file_name.spec_bytes()) is None <==> (r is Err && r->Err_0@ == ParseFailure::NoParser(file_name@)),
        manifest_kind(file_name.spec_bytes()) == Some(ManifestKind::PackageJson) ==> (r is Ok
            <==> manifest_dependencies(content@) is Some),
        manifest_kind(file_name.spec_bytes()) == Some(ManifestKind::PackageJson) && r is Ok ==> declares_exactly(
            soups_view(r->Ok_0@),
            manifest_dependencies(content@)->Some_0,
            meta_view(*default_meta),
        ),
        manifest_kind(file_name.spec_bytes()) == Some(ManifestKind::CsProj) ==> outcome_view(r) == reference_soups(
            document_events(content@),
            meta_view(*default_meta),
        ),
{
    match manifest_kind_of(file_name) {
        Some(ManifestKind::PackageJson) => PackageJson {}.soups(content, default_meta),
        Some(ManifestKind::CsProj) => {
            let r = CsProj {}.soups(content, default_meta);
            proof {
                if r is Err {
                    lemma_no_parser_failure(document_events(content@), meta_view(*default_meta));
                }
            }
            r
        },
        None => Err(SoupSourceParseError::NoParser { file_name: file_name.to_owned() }),
    }
}

proof fn lemma_no_parser_failure(evs: Seq<XmlEvent>, dm: MetaModel)
    ensures
        !(reference_soups(evs, dm) is Err && reference_soups(evs, dm)->Err_0 is NoParser),
    decreases evs.len(),
{
    if evs.len() > 0 {
        lemma_no_parser_failure(evs.drop_last(), dm);
    }
}

} // verus!
