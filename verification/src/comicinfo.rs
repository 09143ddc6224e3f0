//! Minimal `ComicInfo.xml` metadata parsing.
//!
//! ComicInfo.xml is the de-facto metadata standard for comic archives
//! (originating from ComicRack). We only extract the fields gideon needs
//! for display and library bookkeeping.

use vstd::prelude::*;

use crate::json::text_view;
use crate::text::{parse_small_number, same_text, small_number};

verus! {

/// Parsed subset of ComicInfo.xml.
#[derive(Debug, Clone, PartialEq, Eq)]
pub struct ComicInfo {
    pub title: Option<String>,
    pub series: Option<String>,
    pub number: Option<String>,
    pub volume: Option<String>,
    pub writer: Option<String>,
    pub summary: Option<String>,
    pub page_count: Option<u32>,
}

/// The model of [`ComicInfo`].
pub struct InfoView {
    pub title: Option<Seq<char>>,
    pub series: Option<Seq<char>>,
    pub number: Option<Seq<char>>,
    pub volume: Option<Seq<char>>,
    pub writer: Option<Seq<char>>,
    pub summary: Option<Seq<char>>,
    pub page_count: Option<u32>,
}

impl View for ComicInfo {
    type V = InfoView;

    open spec fn view(&self) -> InfoView {
        InfoView {
            title: text_view(self.title),
            series: text_view(self.series),
            number: text_view(self.number),
            volume: text_view(self.volume),
            writer: text_view(self.writer),
            summary: text_view(self.summary),
            page_count: self.page_count,
        }
    }
}

/// No metadata.
pub open spec fn no_info() -> InfoView {
    InfoView {
        title: None,
        series: None,
        number: None,
        volume: None,
        writer: None,
        summary: None,
        page_count: None,
    }
}

impl Default for ComicInfo {
    fn default() -> (res: Self)
        ensures
            res@ == no_info(),
    {
        ComicInfo {
            title: None,
            series: None,
            number: None,
            volume: None,
            writer: None,
            summary: None,
            page_count: None,
        }
    }
}

/// One step of reading an XML document.
pub enum XmlStep {
    /// An element with this name was opened.
    Open(Seq<char>),
    /// An element was closed.
    Close,
    /// Text, with its entities resolved; `None` where they cannot be.
    Text(Option<Seq<char>>),
    /// Anything else, such as a comment or an empty element.
    Other,
    /// The document ended.
    Finish,
    /// The document is malformed here.
    Broken,
}

impl XmlStep {
    /// Whether reading stops here.
    pub open spec fn is_last(self) -> bool {
        self is Finish || self is Broken
    }
}

/// An XML reader over borrowed bytes.
#[verifier::external_type_specification]
#[verifier::external_body]
#[verifier::reject_recursive_types(R)]
pub struct ExXmlReader<R>(quick_xml::Reader<R>);

/// What reading the XML document `xml`, with whitespace around texts dropped,
/// goes through.
pub uninterp spec fn xml_steps(xml: Seq<char>) -> Seq<XmlStep>;

/// What a reader has yet to go through.
pub uninterp spec fn pending_steps(reader: quick_xml::Reader<&[u8]>) -> Seq<XmlStep>;

/// Whether reading stops at the last of some steps, and there only.
pub open spec fn stops_at_end(steps: Seq<XmlStep>) -> bool {
    &&& steps.len() > 0
    &&& forall|i: int|
        0 <= i < steps.len() ==> (#[trigger] steps[i]).is_last() == (i == steps.len() - 1)
}

/// An event of an XML document, as far as metadata parsing looks at it. What
/// cannot be read comes with the reader's message.
pub enum XmlEvent {
    Open(String),
    Close,
    Text(Result<String, String>),
    Other,
    Finish,
}

/// The step that an event, or the error in its place, goes through.
pub open spec fn step_of(event: Result<XmlEvent, String>) -> XmlStep {
    match event {
        Err(_) => XmlStep::Broken,
        Ok(XmlEvent::Open(name)) => XmlStep::Open(name@),
        Ok(XmlEvent::Close) => XmlStep::Close,
        Ok(XmlEvent::Text(Ok(text))) => XmlStep::Text(Some(text@)),
        Ok(XmlEvent::Text(Err(_))) => XmlStep::Text(None),
        Ok(XmlEvent::Other) => XmlStep::Other,
        Ok(XmlEvent::Finish) => XmlStep::Finish,
    }
}

/// `quick_xml::Reader::from_str`, with `trim_text(true)` set: a reader that has
/// the whole document before it. Every event consumes some of the document, so
/// the reader comes to its end or to the first malformed place.
#[verifier::external_body]
fn open_xml(xml: &str) -> (res: quick_xml::Reader<&[u8]>)
    ensures
        pending_steps(res) == xml_steps(xml@),
        stops_at_end(pending_steps(res)),
{
    let mut reader = quick_xml::Reader::from_str(xml);
    reader.config_mut().trim_text(true);
    reader
}

/// `quick_xml::Reader::read_event`: the next event, which the reader then has
/// behind it. An element's name is its bytes as UTF-8, and a text is given as
/// `BytesText::unescape` gives it. Nothing is claimed of the message that comes
/// with an error.
#[verifier::external_body]
fn next_event(reader: &mut quick_xml::Reader<&[u8]>) -> (res: Result<XmlEvent, String>)
    requires
        pending_steps(*old(reader)).len() > 0,
    ensures
        step_of(res) == pending_steps(*old(reader))[0],
        pending_steps(*final(reader)) == pending_steps(*old(reader)).drop_first(),
{
    Ok(match reader.read_event().map_err(|e| e.to_string())? {
        quick_xml::events::Event::Start(e) => {
            XmlEvent::Open(String::from_utf8_lossy(e.name().as_ref()).into_owned())
        },
        quick_xml::events::Event::End(_) => XmlEvent::Close,
        quick_xml::events::Event::Text(t) => XmlEvent::Text(
            t.unescape().map(|text| text.into_owned()).map_err(|e| e.to_string()),
        ),
        quick_xml::events::Event::Eof => XmlEvent::Finish,
        _ => XmlEvent::Other,
    })
}

/// Why metadata could not be parsed.
#[derive(Debug)]
pub enum ComicInfoError {
    /// The document is not well-formed.
    Malformed(String),
    /// A text inside an element has an entity that cannot be resolved.
    BadText(String),
}

/// How parsing ends.
pub enum Outcome {
    Parsed(InfoView),
    Malformed,
    BadText,
}

/// The metadata with the text of the element `tag` taken in. Unknown elements
/// are ignored.
pub open spec fn with_text(info: InfoView, tag: Seq<char>, text: Seq<char>) -> InfoView {
    if tag == "Title"@ {
        InfoView { title: Some(text), ..info }
    } else if tag == "Series"@ {
        InfoView { series: Some(text), ..info }
    } else if tag == "Number"@ {
        InfoView { number: Some(text), ..info }
    } else if tag == "Volume"@ {
        InfoView { volume: Some(text), ..info }
    } else if tag == "Writer"@ {
        InfoView { writer: Some(text), ..info }
    } else if tag == "Summary"@ {
        InfoView { summary: Some(text), ..info }
    } else if tag == "PageCount"@ {
        InfoView { page_count: small_number(text), ..info }
    } else {
        info
    }
}

/// What parsing has found and where it stands: the metadata so far and the
/// name of the element that was opened last, if it was not closed since.
pub struct ParserView {
    pub info: InfoView,
    pub current: Option<Seq<char>>,
}

impl ParserView {
    /// Whether a step cannot be taken in.
    pub open spec fn is_stuck_at(self, step: XmlStep) -> bool {
        self.current is Some && step == XmlStep::Text(None)
    }

    /// Where a step leads that neither is the last one nor gets parsing stuck.
    pub open spec fn after(self, step: XmlStep) -> ParserView {
        match step {
            XmlStep::Open(name) => ParserView { current: Some(name), ..self },
            XmlStep::Close => ParserView { current: None, ..self },
            XmlStep::Text(Some(text)) => match self.current {
                Some(tag) => ParserView { info: with_text(self.info, tag, text), ..self },
                None => self,
            },
            _ => self,
        }
    }

    /// How parsing ends, given the steps from here.
    pub open spec fn outcome(self, steps: Seq<XmlStep>) -> Outcome
        decreases steps.len(),
    {
        if steps.len() == 0 || steps[0] is Finish {
            Outcome::Parsed(self.info)
        } else if steps[0] is Broken {
            Outcome::Malformed
        } else if self.is_stuck_at(steps[0]) {
            Outcome::BadText
        } else {
            self.after(steps[0]).outcome(steps.drop_first())
        }
    }
}

/// Whether a result is how parsing ends.
pub open spec fn is_outcome(res: Result<ComicInfo, ComicInfoError>, o: Outcome) -> bool {
    match res {
        Ok(info) => o == Outcome::Parsed(info@),
        Err(ComicInfoError::Malformed(_)) => o is Malformed,
        Err(ComicInfoError::BadText(_)) => o is BadText,
    }
}

/// Metadata being parsed.
pub struct ComicInfoParser {
    pub info: ComicInfo,
    /// The element that was opened last, if it was not closed since.
    pub current: Option<String>,
}

impl View for ComicInfoParser {
    type V = ParserView;

    open spec fn view(&self) -> ParserView {
        ParserView { info: self.info@, current: text_view(self.current) }
    }
}

impl ComicInfoParser {
    /// A parser that has seen nothing yet.
    pub fn new() -> (res: Self)
        ensures
            res@ == (ParserView { info: no_info(), current: None }),
    {
        ComicInfoParser { info: ComicInfo::default(), current: None }
    }

    /// Takes in the next event. `Ok(true)` means that the document ended.
    pub fn take(&mut self, event: Result<XmlEvent, String>) -> (res: Result<
        bool,
        ComicInfoError,
    >)
        ensures
            ({
                let step = step_of(event);
                &&& step is Finish <==> (res is Ok && res->Ok_0)
                &&& step is Broken <==> (res is Err && res->Err_0 is Malformed)
                &&& old(self)@.is_stuck_at(step) <==> (res is Err && res->Err_0 is BadText)
                &&& final(self)@ == if res is Ok && !res->Ok_0 {
                    old(self)@.after(step)
                } else {
                    old(self)@
                }
            }),
    {
        match event {
            Err(e) => return Err(ComicInfoError::Malformed(e)),
            Ok(XmlEvent::Open(name)) => self.current = Some(name),
            Ok(XmlEvent::Close) => self.current = None,
            Ok(XmlEvent::Text(text)) => if let Some(tag) = &self.current {
                match text {
                    Err(e) => return Err(ComicInfoError::BadText(e)),
                    Ok(text) => {
                        if same_text(tag.as_str(), "Title") {
                            self.info.title = Some(text);
                        } else if same_text(tag.as_str(), "Series") {
                            self.info.series = Some(text);
                        } else if same_text(tag.as_str(), "Number") {
                            self.info.number = Some(text);
                        } else if same_text(tag.as_str(), "Volume") {
                            self.info.volume = Some(text);
                        } else if same_text(tag.as_str(), "Writer") {
                            self.info.writer = Some(text);
                        } else if same_text(tag.as_str(), "Summary") {
                            self.info.summary = Some(text);
                        } else if same_text(tag.as_str(), "PageCount") {
                            self.info.page_count = parse_small_number(text.as_str());
                        }
                    },
                }
            },
            Ok(XmlEvent::Other) => {},
            Ok(XmlEvent::Finish) => return Ok(true),
        }
        Ok(false)
    }
}

/// The title that series and chapter title combine to.
pub open spec fn combined_title(info: InfoView) -> Option<Seq<char>> {
    match (info.series, info.title) {
        (Some(series), Some(title)) if series != title => Some(series + " — "@ + title),
        (Some(series), _) => Some(series),
        (None, Some(title)) => Some(title),
        (None, None) => None,
    }
}

impl ComicInfo {
    /// Parse ComicInfo XML. Unknown elements are ignored.
    pub fn parse(xml: &str) -> (res: Result<Self, ComicInfoError>)
        ensures
            is_outcome(
                res,
                (ParserView { info: no_info(), current: None }).outcome(xml_steps(xml@)),
            ),
    {
        let mut reader = open_xml(xml);
        let mut parser = ComicInfoParser::new();
        let ghost all = parser@.outcome(xml_steps(xml@));
        loop
            invariant
                stops_at_end(pending_steps(reader)),
                parser@.outcome(pending_steps(reader)) == all,
                all == (ParserView { info: no_info(), current: None }).outcome(xml_steps(xml@)),
            decreases pending_steps(reader).len(),
        {
            let ghost steps = pending_steps(reader);
            let event = next_event(&mut reader);
            let done = match parser.take(event) {
                Ok(done) => done,
                Err(e) => return Err(e),
            };
            if done {
                return Ok(parser.info);
            }
            proof {
                let rest = steps.drop_first();
                assert forall|i: int| 0 <= i < rest.len() implies (#[trigger] rest[i]).is_last() == (i
                    == rest.len() - 1) by {
                    assert(rest[i] == steps[i + 1]);
                }
            }
        }
    }

    /// Human-friendly title combining series and chapter title when both exist.
    pub fn display_title(&self) -> (res: Option<String>)
        ensures
            text_view(res) == combined_title(self@),
    {
        match &self.series {
            Some(series) => match &self.title {
                Some(title) if !same_text(series.as_str(), title.as_str()) => {
                    let mut res = series.clone();
                    res.append(" — ");
                    res.append(title.as_str());
                    Some(res)
                },
                _ => Some(series.clone()),
            },
            None => match &self.title {
                Some(title) => Some(title.clone()),
                None => None,
            },
        }
    }
}

/// Whether the text of an element with this name is metadata.
pub open spec fn is_known_element(name: Seq<char>) -> bool {
    name == "Title"@ || name == "Series"@ || name == "Number"@ || name == "Volume"@ || name
        == "Writer"@ || name == "Summary"@ || name == "PageCount"@
}

/// Unknown elements are ignored: an element with a text that can be read
/// changes nothing unless its name is a known one.
pub proof fn unknown_elements_are_ignored(
    info: InfoView,
    name: Seq<char>,
    text: Seq<char>,
    rest: Seq<XmlStep>,
)
    requires
        !is_known_element(name),
    ensures
        (ParserView { info, current: None }).outcome(
            seq![XmlStep::Open(name), XmlStep::Text(Some(text)), XmlStep::Close] + rest,
        ) == (ParserView { info, current: None }).outcome(rest),
{
    let steps = seq![XmlStep::Open(name), XmlStep::Text(Some(text)), XmlStep::Close] + rest;
    let start = ParserView { info, current: None };
    assert(steps.drop_first().drop_first().drop_first() =~= rest);
    let inside = start.after(steps[0]);
    assert(inside.after(steps[1]) == inside);
    assert(inside.after(steps[2]) == start);
    assert(start.outcome(steps) == inside.outcome(steps.drop_first()));
    assert(inside.outcome(steps.drop_first()) == inside.outcome(steps.drop_first().drop_first()));
}

/// How parsing ends from between two elements, with this metadata so far.
pub open spec fn outcome_of(info: InfoView, steps: Seq<XmlStep>) -> Outcome {
    (ParserView { info, current: None }).outcome(steps)
}

/// The steps of an element that holds a text.
pub open spec fn element(name: Seq<char>, text: Seq<char>) -> Seq<XmlStep> {
    seq![XmlStep::Open(name), XmlStep::Text(Some(text)), XmlStep::Close]
}

proof fn lemma_step(state: ParserView, step: XmlStep, rest: Seq<XmlStep>)
    requires
        !step.is_last(),
        !state.is_stuck_at(step),
    ensures
        state.outcome(seq![step] + rest) == state.after(step).outcome(rest),
{
    assert((seq![step] + rest).drop_first() =~= rest);
}

proof fn lemma_element(info: InfoView, name: Seq<char>, text: Seq<char>, rest: Seq<XmlStep>)
    ensures
        outcome_of(info, element(name, text) + rest) == outcome_of(
            with_text(info, name, text),
            rest,
        ),
{
    let steps = element(name, text) + rest;
    let start = ParserView { info, current: None };
    let open = start.after(XmlStep::Open(name));
    let full = open.after(XmlStep::Text(Some(text)));
    let tail = seq![XmlStep::Close] + rest;
    assert(steps =~= seq![XmlStep::Open(name)] + (seq![XmlStep::Text(Some(text))] + tail));
    lemma_step(start, XmlStep::Open(name), seq![XmlStep::Text(Some(text))] + tail);
    lemma_step(open, XmlStep::Text(Some(text)), tail);
    lemma_step(full, XmlStep::Close, rest);
}

/// Each known element gives its text to its own field and leaves the others as
/// they are; a page count is the number that its text writes.
pub proof fn known_elements_are_taken(info: InfoView, text: Seq<char>, rest: Seq<XmlStep>)
    ensures
        outcome_of(info, element("Title"@, text) + rest) == outcome_of(
            InfoView { title: Some(text), ..info },
            rest,
        ),
        outcome_of(info, element("Series"@, text) + rest) == outcome_of(
            InfoView { series: Some(text), ..info },
            rest,
        ),
        outcome_of(info, element("Number"@, text) + rest) == outcome_of(
            InfoView { number: Some(text), ..info },
            rest,
        ),
        outcome_of(info, element("Volume"@, text) + rest) == outcome_of(
            InfoView { volume: Some(text), ..info },
            rest,
        ),
        outcome_of(info, element("Writer"@, text) + rest) == outcome_of(
            InfoView { writer: Some(text), ..info },
            rest,
        ),
        outcome_of(info, element("Summary"@, text) + rest) == outcome_of(
            InfoView { summary: Some(text), ..info },
            rest,
        ),
        outcome_of(info, element("PageCount"@, text) + rest) == outcome_of(
            InfoView { page_count: small_number(text), ..info },
            rest,
        ),
{
    reveal_strlit("Title");
    reveal_strlit("Series");
    reveal_strlit("Number");
    reveal_strlit("Volume");
    reveal_strlit("Writer");
    reveal_strlit("Summary");
    reveal_strlit("PageCount");
    assert("Title"@.len() == 5 && "Series"@.len() == 6 && "Number"@.len() == 6 && "Volume"@.len()
        == 6 && "Writer"@.len() == 6 && "Summary"@.len() == 7 && "PageCount"@.len() == 9);
    assert("Series"@[0] == 'S' && "Number"@[0] == 'N' && "Volume"@[0] == 'V' && "Writer"@[0]
        == 'W');
    lemma_element(info, "Title"@, text, rest);
    lemma_element(info, "Series"@, text, rest);
    lemma_element(info, "Number"@, text, rest);
    lemma_element(info, "Volume"@, text, rest);
    lemma_element(info, "Writer"@, text, rest);
    lemma_element(info, "Summary"@, text, rest);
    lemma_element(info, "PageCount"@, text, rest);
}

/// Between elements neither texts nor comments nor empty elements count, and
/// inside an element comments do not; the end of the document ends parsing with
/// what was found, a malformed place fails it, and so does a text inside an
/// element that cannot be read.
pub proof fn other_steps_change_nothing(
    info: InfoView,
    name: Seq<char>,
    text: Option<Seq<char>>,
    rest: Seq<XmlStep>,
)
    ensures
        outcome_of(info, seq![XmlStep::Text(text)] + rest) == outcome_of(info, rest),
        outcome_of(info, seq![XmlStep::Other] + rest) == outcome_of(info, rest),
        outcome_of(info, seq![XmlStep::Close] + rest) == outcome_of(info, rest),
        outcome_of(info, seq![XmlStep::Open(name), XmlStep::Other] + rest) == outcome_of(
            info,
            seq![XmlStep::Open(name)] + rest,
        ),
        outcome_of(info, seq![XmlStep::Open(name), XmlStep::Close] + rest) == outcome_of(
            info,
            rest,
        ),
        outcome_of(info, seq![XmlStep::Open(text->0), XmlStep::Open(name)] + rest) == outcome_of(
            info,
            seq![XmlStep::Open(name)] + rest,
        ),
        outcome_of(info, seq![XmlStep::Open(name), XmlStep::Text(None)] + rest) == Outcome::BadText,
        outcome_of(info, seq![XmlStep::Finish] + rest) == Outcome::Parsed(info),
        outcome_of(info, seq![XmlStep::Broken] + rest) == Outcome::Malformed,
{
    let start = ParserView { info, current: None };
    let open = start.after(XmlStep::Open(name));
    lemma_step(start, XmlStep::Text(text), rest);
    lemma_step(start, XmlStep::Other, rest);
    lemma_step(start, XmlStep::Close, rest);
    lemma_step(start, XmlStep::Open(name), rest);
    let other = seq![XmlStep::Other] + rest;
    let close = seq![XmlStep::Close] + rest;
    let bad = seq![XmlStep::Text(None)] + rest;
    let again = seq![XmlStep::Open(name)] + rest;
    lemma_step(start, XmlStep::Open(name), other);
    lemma_step(open, XmlStep::Other, rest);
    lemma_step(start, XmlStep::Open(name), close);
    lemma_step(open, XmlStep::Close, rest);
    lemma_step(start, XmlStep::Open(name), bad);
    lemma_step(start, XmlStep::Open(text->0), again);
    lemma_step(start.after(XmlStep::Open(text->0)), XmlStep::Open(name), rest);
    assert(seq![XmlStep::Open(name), XmlStep::Other] + rest =~= seq![XmlStep::Open(name)] + other);
    assert(seq![XmlStep::Open(name), XmlStep::Close] + rest =~= seq![XmlStep::Open(name)] + close);
    assert(seq![XmlStep::Open(name), XmlStep::Text(None)] + rest =~= seq![XmlStep::Open(name)]
        + bad);
    assert(seq![XmlStep::Open(text->0), XmlStep::Open(name)] + rest =~= seq![
        XmlStep::Open(text->0),
    ] + again);
    assert(open.outcome(bad) == Outcome::BadText);
}

/// Metadata with a series or a title always has a title to show: the one that
/// there is, or the series, followed by the title where that differs from it.
pub proof fn a_series_or_a_title_is_shown(info: InfoView)
    ensures
        combined_title(info) is None <==> info.series is None && info.title is None,
        info.series is Some && info.title is None ==> combined_title(info) == info.series,
        info.series is None && info.title is Some ==> combined_title(info) == info.title,
        info.series is Some && info.title == info.series ==> combined_title(info) == info.series,
        info.series is Some && info.title is Some && info.title != info.series ==> combined_title(
            info,
        ) == Some(info.series->0 + seq![' ', '\u{2014}', ' '] + info.title->0),
{
    reveal_strlit(" — ");
    assert(" — "@ =~= seq![' ', '\u{2014}', ' ']);
}

/// The model of metadata holds what the metadata holds, field by field.
pub proof fn metadata_is_modelled_faithfully(info: ComicInfo)
    ensures
        info.title matches Some(t) ==> info@.title == Some(t@),
        info.series matches Some(t) ==> info@.series == Some(t@),
        info.number matches Some(t) ==> info@.number == Some(t@),
        info.volume matches Some(t) ==> info@.volume == Some(t@),
        info.writer matches Some(t) ==> info@.writer == Some(t@),
        info.summary matches Some(t) ==> info@.summary == Some(t@),
        info.title is None ==> info@.title is None,
        info.series is None ==> info@.series is None,
        info.number is None ==> info@.number is None,
        info.volume is None ==> info@.volume is None,
        info.writer is None ==> info@.writer is None,
        info.summary is None ==> info@.summary is None,
        info@.page_count == info.page_count,
        no_info() == (InfoView {
            title: None,
            series: None,
            number: None,
            volume: None,
            writer: None,
            summary: None,
            page_count: None,
        }),
{
}

/// An event is modelled by the step that goes by its name, with the text that it
/// holds.
pub proof fn events_are_modelled_faithfully(text: String, message: String)
    ensures
        step_of(Ok(XmlEvent::Open(text))) == XmlStep::Open(text@),
        step_of(Ok(XmlEvent::Close)) == XmlStep::Close,
        step_of(Ok(XmlEvent::Text(Ok(text)))) == XmlStep::Text(Some(text@)),
        step_of(Ok(XmlEvent::Text(Err(message)))) == XmlStep::Text(None),
        step_of(Ok(XmlEvent::Other)) == XmlStep::Other,
        step_of(Ok(XmlEvent::Finish)) == XmlStep::Finish,
        step_of(Err(message)) == XmlStep::Broken,
{
}

} // verus!
