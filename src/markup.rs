//! Turning a stream of markup events into tag-labelled text fragments.

use vstd::prelude::*;

verus! {

/// One event of a markup document, as the reader reports it.
pub enum MarkupEvent {
    /// An element opens; the tag's local name.
    Open(String),
    /// An element closes; the tag's local name.
    Close(String),
    /// Character data.
    Text(String),
    /// Anything else (declarations, comments, whitespace between elements).
    Other,
}

/// The text of one closed element, labelled with its tag, or the boundary
/// where a `question` element opens.
pub struct Fragment {
    pub tag: String,
    pub text: String,
    /// Whether this marks an element opening rather than closing.
    pub opening: bool,
    /// Whether an enclosing `question` element is open around it.
    pub in_question: bool,
}

pub struct FragmentView {
    pub tag: Seq<char>,
    pub text: Seq<char>,
    pub opening: bool,
    pub in_question: bool,
}

impl View for Fragment {
    type V = FragmentView;

    open spec fn view(&self) -> FragmentView {
        FragmentView {
            tag: self.tag@,
            text: self.text@,
            opening: self.opening,
            in_question: self.in_question,
        }
    }
}

/// A tag that did not fit where it stood; it was skipped.
pub struct Warning {
    pub tag: String,
    /// Whether the tag was a closing one.
    pub closing: bool,
}

impl View for Warning {
    type V = (Seq<char>, bool);

    open spec fn view(&self) -> (Seq<char>, bool) {
        (self.tag@, self.closing)
    }
}

pub open spec fn fragments_view(v: Seq<Fragment>) -> Seq<FragmentView> {
    v.map_values(|f: Fragment| f@)
}

pub open spec fn warnings_view(v: Seq<Warning>) -> Seq<(Seq<char>, bool)> {
    v.map_values(|w: Warning| w@)
}

pub open spec fn names_view(v: Seq<String>) -> Seq<Seq<char>> {
    v.map_values(|s: String| s@)
}

/// The parser's state: the elements still open (innermost last), the text
/// gathered directly inside each of them, and what was emitted.
pub struct ParseModel {
    pub open: Seq<Seq<char>>,
    pub texts: Seq<Seq<char>>,
    pub fragments: Seq<FragmentView>,
    pub warnings: Seq<(Seq<char>, bool)>,
}

pub open spec fn parse_start() -> ParseModel {
    ParseModel { open: seq![], texts: seq![], fragments: seq![], warnings: seq![] }
}

/// Whether one of the open elements is a `question`.
pub open spec fn has_question(open: Seq<Seq<char>>) -> bool {
    exists|i: int| 0 <= i < open.len() && open[i] == "question"@
}

/// One event applied to the parser's state. Text is appended to the buffer
/// of every open element, so an element's text is all the text inside it,
/// nested elements included; a closing tag that matches the innermost open
/// element emits its text as a fragment; any other closing tag is reported and
/// otherwise ignored. A `question` element also emits a boundary when it
/// opens.
pub open spec fn parse_step(st: ParseModel, e: MarkupEvent) -> ParseModel {
    match e {
        MarkupEvent::Open(name) => ParseModel {
            open: st.open.push(name@),
            texts: st.texts.push(seq![]),
            fragments: if name@ == "question"@ {
                st.fragments.push(
                    FragmentView {
                        tag: name@,
                        text: seq![],
                        opening: true,
                        in_question: has_question(st.open),
                    },
                )
            } else {
                st.fragments
            },
            ..st
        },
        MarkupEvent::Close(name) => if st.open.len() > 0 && st.open.last() == name@ {
            ParseModel {
                open: st.open.drop_last(),
                texts: st.texts.drop_last(),
                fragments: st.fragments.push(
                    FragmentView {
                        tag: name@,
                        text: st.texts.last(),
                        opening: false,
                        in_question: has_question(st.open.drop_last()),
                    },
                ),
                ..st
            }
        } else {
            ParseModel { warnings: st.warnings.push((name@, true)), ..st }
        },
        MarkupEvent::Text(s) => ParseModel {
            texts: st.texts.map_values(|t: Seq<char>| t + s@),
            ..st
        },
        MarkupEvent::Other => st,
    }
}

/// The parser's state after a sequence of events, from a given state.
pub open spec fn parse_from(st: ParseModel, es: Seq<MarkupEvent>) -> ParseModel
    decreases es.len(),
{
    if es.len() == 0 {
        st
    } else {
        parse_step(parse_from(st, es.drop_last()), es.last())
    }
}

pub open spec fn parse_model(es: Seq<MarkupEvent>) -> ParseModel {
    parse_from(parse_start(), es)
}

pub proof fn lemma_parse_split(st: ParseModel, a: Seq<MarkupEvent>, b: Seq<MarkupEvent>)
    ensures
        parse_from(st, a + b) == parse_from(parse_from(st, a), b),
    decreases b.len(),
{
    if b.len() == 0 {
        assert(a + b =~= a);
    } else {
        assert((a + b).drop_last() =~= a + b.drop_last());
        lemma_parse_split(st, a, b.drop_last());
    }
}

fn any_question(open: &Vec<String>, len: usize) -> (r: bool)
    requires
        len <= open@.len(),
    ensures
        r == has_question(names_view(open@).take(len as int)),
{
    let ghost names = names_view(open@).take(len as int);
    let question = "question".to_owned();
    let mut j: usize = 0;
    while j < len
        invariant
            len <= open@.len(),
            j <= len,
            question@ == "question"@,
            names == names_view(open@).take(len as int),
            forall|k: int| 0 <= k < j ==> names[k] != "question"@,
        decreases len - j,
    {
        if open[j] == question {
            assert(names[j as int] == "question"@);
            return true;
        }
        j = j + 1;
    }
    false
}

fn append_to_all(texts: &mut Vec<String>, s: &String)
    ensures
        final(texts)@.len() == old(texts)@.len(),
        names_view(final(texts)@) == names_view(old(texts)@).map_values(|t: Seq<char>| t + s@),
{
    let ghost before = texts@;
    let mut k: usize = 0;
    while k < texts.len()
        invariant
            texts@.len() == before.len(),
            k <= texts@.len(),
            forall|j: int| 0 <= j < k ==> #[trigger] texts@[j]@ == before[j]@ + s@,
            forall|j: int| k <= j < texts@.len() ==> #[trigger] texts@[j] == before[j],
        decreases texts@.len() - k,
    {
        texts[k].append(s.as_str());
        k = k + 1;
    }
    assert(names_view(texts@) =~= names_view(before).map_values(|t: Seq<char>| t + s@));
}

pub open spec fn parse_state(
    open: Seq<String>,
    texts: Seq<String>,
    fragments: Seq<Fragment>,
    warnings: Seq<Warning>,
) -> ParseModel {
    ParseModel {
        open: names_view(open),
        texts: names_view(texts),
        fragments: fragments_view(fragments),
        warnings: warnings_view(warnings),
    }
}

/// Applies one event to the parser's state.
pub(crate) fn parse_event(
    open: &mut Vec<String>,
    texts: &mut Vec<String>,
    fragments: &mut Vec<Fragment>,
    warnings: &mut Vec<Warning>,
    e: &MarkupEvent,
)
    requires
        old(open)@.len() == old(texts)@.len(),
    ensures
        final(open)@.len() == final(texts)@.len(),
        parse_state(final(open)@, final(texts)@, final(fragments)@, final(warnings)@) == parse_step(
            parse_state(old(open)@, old(texts)@, old(fragments)@, old(warnings)@),
            *e,
        ),
{
    let ghost m = parse_state(open@, texts@, fragments@, warnings@);
    proof {
        assert(names_view(open@).take(open@.len() as int) =~= names_view(open@));
    }
    let question = "question".to_owned();
    match e {
        MarkupEvent::Open(name) => {
            if *name == question {
                let inside = any_question(open, open.len());
                fragments.push(
                    Fragment { tag: name.clone(), text: String::new(), opening: true, in_question: inside },
                );
            }
            open.push(name.clone());
            texts.push(String::new());
            assert(names_view(open@) =~= m.open.push(name@));
            assert(names_view(texts@) =~= m.texts.push(seq![]));
            assert(fragments_view(fragments@) =~= parse_step(m, *e).fragments);
        },
        MarkupEvent::Close(name) => {
            let n = open.len();
            if n > 0 && open[n - 1] == *name {
                let inside = any_question(open, n - 1);
                proof {
                    assert(names_view(open@).take(n - 1) =~= m.open.drop_last());
                }
                let tag = open.pop().unwrap();
                let text = texts.pop().unwrap();
                fragments.push(Fragment { tag, text, opening: false, in_question: inside });
                assert(names_view(open@) =~= m.open.drop_last());
                assert(names_view(texts@) =~= m.texts.drop_last());
            } else {
                warnings.push(Warning { tag: name.clone(), closing: true });
            }
            assert(fragments_view(fragments@) =~= parse_step(m, *e).fragments);
            assert(warnings_view(warnings@) =~= parse_step(m, *e).warnings);
        },
        MarkupEvent::Text(s) => {
            append_to_all(texts, s);
        },
        MarkupEvent::Other => {},
    }
}

/// Converts markup events into fragments, in the order in which their
/// elements close (with a boundary where each `question` opens), together
/// with a warning for each unexpected closing tag.
pub fn parse_fragments(events: &Vec<MarkupEvent>) -> (r: (Vec<Fragment>, Vec<Warning>))
    ensures
        fragments_view(r.0@) == parse_model(events@).fragments,
        warnings_view(r.1@) == parse_model(events@).warnings,
{
    let mut open: Vec<String> = Vec::new();
    let mut texts: Vec<String> = Vec::new();
    let mut fragments: Vec<Fragment> = Vec::new();
    let mut warnings: Vec<Warning> = Vec::new();
    proof {
        assert(events@.take(0) =~= seq![]);
        let z = parse_state(open@, texts@, fragments@, warnings@);
        assert(z.open =~= seq![]);
        assert(z.texts =~= seq![]);
        assert(z.fragments =~= seq![]);
        assert(z.warnings =~= seq![]);
    }
    let mut i: usize = 0;
    while i < events.len()
        invariant
            i <= events@.len(),
            open@.len() == texts@.len(),
            parse_state(open@, texts@, fragments@, warnings@) == parse_model(events@.take(i as int)),
        decreases events@.len() - i,
    {
        proof {
            assert(events@.take(i + 1).drop_last() =~= events@.take(i as int));
        }
        parse_event(&mut open, &mut texts, &mut fragments, &mut warnings, &events[i]);
        i = i + 1;
    }
    proof {
        assert(events@.take(i as int) =~= events@);
    }
    (fragments, warnings)
}

/// A close with no matching open element leaves the fragments as they were
/// and adds one warning that names the tag.
pub proof fn lemma_unmatched_close_warns(es: Seq<MarkupEvent>, name: String)
    requires
        parse_model(es).open.len() == 0 || parse_model(es).open.last() != name@,
    ensures
        ({
            let before = parse_model(es);
            let after = parse_model(es.push(MarkupEvent::Close(name)));
            &&& after.fragments == before.fragments
            &&& after.warnings == before.warnings.push((name@, true))
        }),
{
    assert(es.push(MarkupEvent::Close(name)).drop_last() =~= es);
}

/// What the markup reader yields for a document: its events, or nothing
/// where the document is malformed.
pub uninterp spec fn markup_events_of(doc: Seq<u8>) -> Option<Seq<MarkupEvent>>;

/// Relies on xml::reader::EventReader: it reads the whole document into its
/// events, stopping at the end of the document or at the first error, and
/// the outcome depends on the bytes alone.
#[verifier::external_body]
pub(crate) fn read_markup(doc: &[u8]) -> (r: Result<Vec<MarkupEvent>, String>)
    ensures
        r is Ok <==> markup_events_of(doc@) is Some,
        r matches Ok(v) ==> markup_events_of(doc@) == Some(v@),
{
    let mut events = Vec::new();
    for e in xml::reader::EventReader::new(doc) {
        events.push(match e {
            Ok(xml::reader::XmlEvent::StartElement { name, .. }) => MarkupEvent::Open(name.local_name),
            Ok(xml::reader::XmlEvent::EndElement { name }) => MarkupEvent::Close(name.local_name),
            Ok(xml::reader::XmlEvent::Characters(s)) => MarkupEvent::Text(s),
            Ok(_) => MarkupEvent::Other,
            Err(e) => return Err(e.to_string()),
        });
    }
    Ok(events)
}

} // verus!
