//! Decoding a reply that a server sends piece by piece: lines of which those that begin
//! with `data: ` hold JSON documents, up to one that says `[DONE]`.
use crate::json::{contents, get_item, get_member, get_text, parse, parsed, Json};
use crate::text::{
    begins_with, chars_of, has_text_at, is_all_space, is_space, text_of, trim_bounds, trimmed,
    trimmed_end, trimmed_start, trimming_leaves_the_core,
};
use vstd::prelude::*;
use vstd::string::StringExecFns;
use vstd::utf8::{decode_utf8, valid_utf8};

verus! {

/// The text that `String::from_utf8_lossy` makes of bytes.
pub uninterp spec fn lossy_text(bytes: Seq<u8>) -> Seq<char>;

/// `String::from_utf8_lossy` makes a text that depends on the bytes alone, and that is the
/// text they encode where they are valid UTF-8. What stands for bytes that are not valid
/// is left open.
#[verifier::external_body]
fn from_utf8_lossy(bytes: &[u8]) -> (r: String)
    ensures
        r@ == lossy_text(bytes@),
        valid_utf8(bytes@) ==> r@ == decode_utf8(bytes@),
{
    String::from_utf8_lossy(bytes).into_owned()
}

/// What a line of the reply says.
pub enum LineView {
    /// Nothing that matters.
    Nothing,
    /// A piece of text.
    Piece(Seq<char>),
    /// The reply is complete.
    Done,
}

/// The piece of text in a document: the content of the change to the first choice.
pub open spec fn piece_of(document: Json) -> Option<Seq<char>> {
    match document.member("choices"@) {
        Some(choices) => match choices.item(0) {
            Some(choice) => match choice.member("delta"@) {
                Some(delta) => match delta.member("content"@) {
                    Some(content) => content.text(),
                    None => None,
                },
                None => None,
            },
            None => None,
        },
        None => None,
    }
}

/// What a document says, where the data is one: an empty piece is nothing.
pub open spec fn data_says(document: Option<Json>) -> LineView {
    match document {
        Some(json) => match piece_of(json) {
            Some(text) => if text.len() == 0 {
                LineView::Nothing
            } else {
                LineView::Piece(text)
            },
            None => LineView::Nothing,
        },
        None => LineView::Nothing,
    }
}

/// What a line says: only data matters, and data is a document or the end.
pub open spec fn line_says(line: Seq<char>) -> LineView {
    let s = trimmed(line);
    if begins_with(s, "data: "@) {
        let data = s.skip(6);
        if data == "[DONE]"@ {
            LineView::Done
        } else {
            data_says(parsed(data))
        }
    } else {
        LineView::Nothing
    }
}

/// The length of the first line of a text, and the length of the text where it has none.
pub open spec fn line_length(s: Seq<char>) -> nat
    decreases s.len(),
{
    if s.len() == 0 || s[0] == '\n' {
        0
    } else {
        1 + line_length(s.drop_first())
    }
}

/// What decoding a text gives: the pieces of its complete lines, the text behind them, and
/// whether the reply is complete.
pub struct Decoded {
    pub pieces: Seq<Seq<char>>,
    pub rest: Seq<char>,
    pub done: bool,
}

/// Decodes the complete lines of a text, up to the one that ends the reply.
pub open spec fn decoded(s: Seq<char>) -> Decoded
    decreases s.len(),
{
    let n = line_length(s) as int;
    if n >= s.len() {
        Decoded { pieces: Seq::empty(), rest: s, done: false }
    } else {
        let rest = s.skip(n + 1);
        match line_says(s.take(n)) {
            LineView::Done => Decoded { pieces: Seq::empty(), rest, done: true },
            LineView::Nothing => decoded(rest),
            LineView::Piece(text) => {
                let more = decoded(rest);
                Decoded { pieces: seq![text] + more.pieces, rest: more.rest, done: more.done }
            },
        }
    }
}

/// What a line of the reply says.
#[derive(Debug)]
pub enum LineEvent {
    Nothing,
    Piece(String),
    Done,
}

impl View for LineEvent {
    type V = LineView;

    open spec fn view(&self) -> LineView {
        match self {
            LineEvent::Nothing => LineView::Nothing,
            LineEvent::Piece(text) => LineView::Piece(text@),
            LineEvent::Done => LineView::Done,
        }
    }
}

/// A document that may be there.
pub open spec fn document_view(document: Option<serde_json::Value>) -> Option<Json> {
    match document {
        Some(value) => Some(contents(value)),
        None => None,
    }
}

fn find_piece(document: &serde_json::Value) -> (r: Option<&str>)
    ensures
        (match r {
            Some(text) => Some(text@),
            None => None::<Seq<char>>,
        }) == piece_of(contents(*document)),
{
    let choices: &serde_json::Value = match get_member(document, "choices") {
        Some(found) => found,
        None => return None,
    };
    let choice: &serde_json::Value = match get_item(choices, 0) {
        Some(found) => found,
        None => return None,
    };
    let delta: &serde_json::Value = match get_member(choice, "delta") {
        Some(found) => found,
        None => return None,
    };
    match get_member(delta, "content") {
        Some(content) => get_text(content),
        None => None,
    }
}

/// What the document of a line says, where the line holds one.
pub fn read_document(document: Option<serde_json::Value>) -> (r: LineEvent)
    ensures
        r@ == data_says(document_view(document)),
{
    match document {
        Some(value) => match find_piece(&value) {
            Some(text) => if text.is_empty() {
                LineEvent::Nothing
            } else {
                LineEvent::Piece(text.to_owned())
            },
            None => LineEvent::Nothing,
        },
        None => LineEvent::Nothing,
    }
}

/// What the characters from `from` up to `to` say as a line.
fn read_line(chars: &Vec<char>, from: usize, to: usize) -> (r: LineEvent)
    requires
        from <= to <= chars.len(),
    ensures
        r@ == line_says(chars@.subrange(from as int, to as int)),
{
    let (start, end): (usize, usize) = trim_bounds(chars, from, to);
    let ghost s = chars@.subrange(start as int, end as int);
    proof {
        reveal_strlit("data: ");
        reveal_strlit("[DONE]");
    }
    if !has_text_at(chars, start, end, "data: ") {
        return LineEvent::Nothing;
    }
    let ghost data = s.skip(6);
    assert(data =~= chars@.subrange(start + 6, end as int));
    if end - start == 12 && has_text_at(chars, start + 6, end, "[DONE]") {
        assert(data.take(6) =~= data);
        return LineEvent::Done;
    }
    proof {
        if data == "[DONE]"@ {
            assert(data.take(6) =~= data);
        }
    }
    let text: String = text_of(chars, start + 6, end);
    read_document(parse(text.as_str()))
}

/// The texts of a list.
pub open spec fn pieces_view(pieces: Seq<String>) -> Seq<Seq<char>> {
    pieces.map_values(|p: String| p@)
}

/// The pieces of text that a part of the reply completes, and whether it ends the reply.
#[derive(Debug)]
pub struct StreamStep {
    pub pieces: Vec<String>,
    pub done: bool,
}

/// Decodes a reply that comes in parts. It holds what follows the last complete line.
#[derive(Clone, Debug)]
pub struct StreamDecoder {
    pub buffer: String,
}

impl StreamDecoder {
    /// A decoder at the start of a reply.
    pub fn new() -> (r: StreamDecoder)
        ensures
            r.buffer@.len() == 0,
    {
        StreamDecoder { buffer: String::new() }
    }

    /// Takes the next part of the reply as text.
    pub fn feed_text(&mut self, text: &str) -> (r: StreamStep)
        ensures
            ({
                let all = decoded(old(self).buffer@ + text@);
                &&& pieces_view(r.pieces@) == all.pieces
                &&& r.done == all.done
                &&& final(self).buffer@ == all.rest
            }),
    {
        let mut joined: String = self.buffer.clone();
        joined.append(text);
        let chars: Vec<char> = chars_of(joined.as_str());
        let ghost all = decoded(chars@);
        let mut pieces: Vec<String> = Vec::new();
        let mut start: usize = 0;
        let mut end: usize = 0;
        assert(chars@.skip(0) =~= chars@);
        assert(pieces_view(pieces@) + all.pieces =~= all.pieces);
        while end < chars.len()
            invariant
                start <= end <= chars.len(),
                all == decoded(old(self).buffer@ + text@),
                all.pieces == pieces_view(pieces@) + decoded(chars@.skip(start as int)).pieces,
                all.rest == decoded(chars@.skip(start as int)).rest,
                all.done == decoded(chars@.skip(start as int)).done,
                line_length(chars@.skip(start as int)) == (end - start) + line_length(
                    chars@.skip(end as int),
                ),
            decreases chars.len() - end,
        {
            let ghost tail = chars@.skip(start as int);
            if chars[end] == '\n' {
                let ghost n = end - start;
                assert(chars@.skip(end as int)[0] == '\n');
                assert(line_length(tail) == n);
                assert(tail.take(n) =~= chars@.subrange(start as int, end as int));
                assert(tail.skip(n + 1) =~= chars@.skip(end + 1));
                match read_line(&chars, start, end) {
                    LineEvent::Done => {
                        self.buffer = text_of(&chars, end + 1, chars.len());
                        assert(self.buffer@ =~= chars@.skip(end + 1));
                        assert(pieces_view(pieces@) =~= all.pieces);
                        return StreamStep { pieces, done: true };
                    },
                    LineEvent::Piece(piece) => {
                        let ghost before = pieces@;
                        let ghost more = decoded(chars@.skip(end + 1)).pieces;
                        pieces.push(piece);
                        assert(pieces_view(pieces@) =~= pieces_view(before).push(piece@));
                        assert(pieces_view(before) + (seq![piece@] + more) =~= pieces_view(pieces@)
                            + more);
                    },
                    LineEvent::Nothing => {},
                }
                start = end + 1;
                end = start;
            } else {
                assert(chars@.skip(end as int)[0] != '\n');
                assert(chars@.skip(end as int).drop_first() =~= chars@.skip(end + 1));
                end = end + 1;
            }
        }
        assert(chars@.skip(end as int) =~= Seq::empty());
        assert(decoded(chars@.skip(start as int)).pieces.len() == 0);
        assert(pieces_view(pieces@) =~= all.pieces);
        self.buffer = text_of(&chars, start, chars.len());
        assert(self.buffer@ =~= chars@.skip(start as int));
        StreamStep { pieces, done: false }
    }

    /// Takes the next part of the reply as bytes.
    pub fn feed(&mut self, bytes: &[u8]) -> (r: StreamStep)
        ensures
            ({
                let all = decoded(old(self).buffer@ + lossy_text(bytes@));
                &&& pieces_view(r.pieces@) == all.pieces
                &&& r.done == all.done
                &&& final(self).buffer@ == all.rest
            }),
            valid_utf8(bytes@) ==> ({
                let all = decoded(old(self).buffer@ + decode_utf8(bytes@));
                &&& pieces_view(r.pieces@) == all.pieces
                &&& r.done == all.done
                &&& final(self).buffer@ == all.rest
            }),
    {
        let text: String = from_utf8_lossy(bytes);
        self.feed_text(text.as_str())
    }
}

proof fn lemma_line_length(a: Seq<char>, b: Seq<char>)
    ensures
        line_length(a) <= a.len(),
        line_length(a) < a.len() ==> line_length(a + b) == line_length(a),
    decreases a.len(),
{
    if a.len() > 0 && a[0] != '\n' {
        lemma_line_length(a.drop_first(), b);
        assert((a + b).drop_first() =~= a.drop_first() + b);
    }
}

/// How a reply is cut into parts does not matter: a part and then another give the pieces,
/// the end and the rest that both give at once, and nothing follows the end.
pub proof fn decoding_does_not_depend_on_the_parts(a: Seq<char>, b: Seq<char>)
    ensures
        decoded(a).done ==> decoded(a + b).done && decoded(a + b).pieces == decoded(a).pieces
            && decoded(a + b).rest == decoded(a).rest + b,
        !decoded(a).done ==> ({
            let second = decoded(decoded(a).rest + b);
            &&& decoded(a + b).pieces == decoded(a).pieces + second.pieces
            &&& decoded(a + b).rest == second.rest
            &&& decoded(a + b).done == second.done
        }),
    decreases a.len(),
{
    let n = line_length(a) as int;
    lemma_line_length(a, b);
    if n < a.len() {
        let rest = a.skip(n + 1);
        assert((a + b).skip(n + 1) =~= rest + b);
        assert((a + b).take(n) =~= a.take(n));
        decoding_does_not_depend_on_the_parts(rest, b);
        match line_says(a.take(n)) {
            LineView::Piece(text) => {
                let more = decoded(rest);
                if !more.done {
                    let second = decoded(more.rest + b);
                    assert(seq![text] + (more.pieces + second.pieces) =~= (seq![text] + more.pieces)
                        + second.pieces);
                }
            },
            _ => {},
        }
    } else {
        assert(decoded(a).pieces + decoded(a + b).pieces =~= decoded(a + b).pieces);
    }
}

/// The line that carries a text as data.
pub open spec fn data_line(text: Seq<char>) -> Seq<char> {
    "data: "@ + text + seq!['\n']
}

/// Whether a text can be carried as data: it is within one line, does not end in white
/// space, and does not say that the reply is complete.
pub open spec fn is_document_text(text: Seq<char>) -> bool {
    text.len() > 0 && !is_space(text.last()) && !text.contains('\n') && text != "[DONE]"@
}

/// The reply that carries the documents one after the other and then ends.
pub open spec fn reply_of(documents: Seq<Seq<char>>) -> Seq<char>
    decreases documents.len(),
{
    if documents.len() == 0 {
        data_line("[DONE]"@)
    } else {
        data_line(documents[0]) + reply_of(documents.drop_first())
    }
}

/// The pieces of text in the documents.
pub open spec fn pieces_in(documents: Seq<Seq<char>>) -> Seq<Seq<char>>
    decreases documents.len(),
{
    if documents.len() == 0 {
        Seq::empty()
    } else {
        let rest = pieces_in(documents.drop_first());
        match data_says(parsed(documents[0])) {
            LineView::Piece(text) => seq![text] + rest,
            _ => rest,
        }
    }
}

proof fn lemma_length_of_line(line: Seq<char>, rest: Seq<char>)
    requires
        !line.contains('\n'),
    ensures
        line_length(line + seq!['\n'] + rest) == line.len(),
    decreases line.len(),
{
    let s = line + seq!['\n'] + rest;
    if line.len() > 0 {
        assert(line.contains(line[0]));
        assert(s[0] == line[0]);
        let tail = line.drop_first();
        assert forall|i: int| 0 <= i < tail.len() implies tail[i] != '\n' by {
            assert(tail[i] == line[i + 1]);
            assert(line.contains(line[i + 1]));
        }
        assert(s.drop_first() =~= tail + seq!['\n'] + rest);
        lemma_length_of_line(tail, rest);
    } else {
        assert(s[0] == '\n');
    }
}

proof fn lemma_data_line(text: Seq<char>, rest: Seq<char>)
    requires
        text.len() > 0,
        !is_space(text.last()),
        !text.contains('\n'),
    ensures
        ({
            let s = data_line(text) + rest;
            let n = line_length(s) as int;
            &&& n < s.len()
            &&& s.skip(n + 1) == rest
            &&& line_says(s.take(n)) == (if text == "[DONE]"@ {
                LineView::Done
            } else {
                data_says(parsed(text))
            })
        }),
{
    reveal_strlit("data: ");
    let line = "data: "@ + text;
    assert forall|i: int| 0 <= i < line.len() implies line[i] != '\n' by {
        if i >= 6 {
            assert(line[i] == text[i - 6]);
            assert(text.contains(text[i - 6]));
        }
    }
    let s = data_line(text) + rest;
    assert(s =~= line + seq!['\n'] + rest);
    lemma_length_of_line(line, rest);
    let n = line.len() as int;
    assert(s.take(n) =~= line);
    assert(s.skip(n + 1) =~= rest);
    assert(line[0] == 'd');
    assert(trimmed_start(line) == line);
    assert(line.last() == text.last());
    assert(trimmed_end(line) == line);
    assert(line.take(6) =~= "data: "@);
    assert(line.skip(6) =~= text);
}

/// Decoding a reply gives back the pieces of the documents that it carries, in their order,
/// and its end.
pub proof fn a_reply_is_read_back(documents: Seq<Seq<char>>)
    requires
        forall|i: int| 0 <= i < documents.len() ==> is_document_text(#[trigger] documents[i]),
    ensures
        decoded(reply_of(documents)).pieces == pieces_in(documents),
        decoded(reply_of(documents)).done,
        decoded(reply_of(documents)).rest.len() == 0,
    decreases documents.len(),
{
    if documents.len() == 0 {
        reveal_strlit("[DONE]");
        let rest = Seq::<char>::empty();
        lemma_data_line("[DONE]"@, rest);
        assert(data_line("[DONE]"@) + rest =~= reply_of(documents));
    } else {
        let others = documents.drop_first();
        assert forall|i: int| 0 <= i < others.len() implies is_document_text(
            #[trigger] others[i],
        ) by {
            assert(others[i] == documents[i + 1]);
        }
        a_reply_is_read_back(others);
        lemma_data_line(documents[0], reply_of(others));
    }
}

/// No piece of a reply is empty.
pub proof fn pieces_are_not_empty(s: Seq<char>)
    ensures
        forall|i: int| 0 <= i < decoded(s).pieces.len() ==> (#[trigger] decoded(s).pieces[i]).len() > 0,
    decreases s.len(),
{
    let n = line_length(s) as int;
    if n < s.len() {
        let rest = s.skip(n + 1);
        pieces_are_not_empty(rest);
        if let LineView::Piece(text) = line_says(s.take(n)) {
            let more = decoded(rest).pieces;
            assert forall|i: int| 0 <= i < decoded(s).pieces.len() implies (
            #[trigger] decoded(s).pieces[i]).len() > 0 by {
                if i > 0 {
                    assert(decoded(s).pieces[i] == more[i - 1]);
                }
            }
        }
    }
}

/// What is held back is less than a line: no line end is in it until the reply ends.
pub proof fn held_text_is_no_line(s: Seq<char>)
    ensures
        !decoded(s).done ==> !decoded(s).rest.contains('\n'),
    decreases s.len(),
{
    let n = line_length(s) as int;
    if n >= s.len() {
        lemma_no_line(s);
    } else {
        held_text_is_no_line(s.skip(n + 1));
    }
}

proof fn lemma_no_line(s: Seq<char>)
    requires
        line_length(s) >= s.len(),
    ensures
        !s.contains('\n'),
    decreases s.len(),
{
    if s.len() > 0 {
        lemma_line_length(s, s);
        lemma_line_length(s.drop_first(), s);
        lemma_no_line(s.drop_first());
        assert forall|i: int| 0 <= i < s.len() implies s[i] != '\n' by {
            if i > 0 {
                assert(s.drop_first()[i - 1] == s[i]);
                assert(s.drop_first().contains(s[i]));
            }
        }
    }
}

/// Whether a document carries a text: at the content of the delta of the first of its choices.
pub open spec fn carries(document: Option<Json>, text: Seq<char>) -> bool {
    &&& document matches Some(Json::Object(top))
    &&& top.contains_key("choices"@)
    &&& top["choices"@] matches Json::List(choices)
    &&& choices.len() > 0
    &&& choices[0] matches Json::Object(choice)
    &&& choice.contains_key("delta"@)
    &&& choice["delta"@] matches Json::Object(delta)
    &&& delta.contains_key("content"@)
    &&& delta["content"@] == Json::Text(text)
}

/// A document that carries a text of at least one character, whatever characters these are,
/// says just that text. One that carries the empty text or none says nothing.
pub proof fn a_document_says_its_text(document: Option<Json>)
    ensures
        forall|text: Seq<char>|
            #[trigger] carries(document, text) && text.len() > 0 ==> data_says(document)
                == LineView::Piece(text),
        (forall|text: Seq<char>| #[trigger] carries(document, text) ==> text.len() == 0)
            ==> data_says(document) == LineView::Nothing,
{
    if document is Some {
        let json = document->0;
        if piece_of(json) is Some {
            assert(carries(document, piece_of(json)->0));
        }
    }
}

/// A line that holds data says what the data says, whatever white space is around it: a text is
/// a piece before those of the following lines, the end mark ends the reply at that line, and
/// anything else changes nothing.
pub proof fn a_data_line_says_what_its_data_says(
    left: Seq<char>,
    data: Seq<char>,
    right: Seq<char>,
    rest: Seq<char>,
)
    requires
        is_all_space(left),
        is_all_space(right),
        !left.contains('\n'),
        !right.contains('\n'),
        !data.contains('\n'),
        data.len() > 0,
        !is_space(data.last()),
    ensures
        ({
            let all = decoded(left + "data: "@ + data + right + seq!['\n'] + rest);
            let more = decoded(rest);
            if data == "[DONE]"@ {
                all.done && all.pieces.len() == 0 && all.rest == rest
            } else {
                &&& all.done == more.done
                &&& all.rest == more.rest
                &&& forall|text: Seq<char>|
                    #[trigger] carries(parsed(data), text) && text.len() > 0 ==> all.pieces
                        == seq![text] + more.pieces
                &&& (forall|text: Seq<char>| #[trigger]
                    carries(parsed(data), text) ==> text.len() == 0) ==> all.pieces == more.pieces
            }
        }),
{
    reveal_strlit("data: ");
    let core = "data: "@ + data;
    let line = left + core + right;
    let s = left + "data: "@ + data + right + seq!['\n'] + rest;
    assert(s =~= line + seq!['\n'] + rest);
    assert(core[0] == 'd');
    assert(core.last() == data.last());
    trimming_leaves_the_core(left, core, right);
    assert forall|i: int| 0 <= i < line.len() implies line[i] != '\n' by {
        if i < left.len() {
            assert(left.contains(line[i]));
        } else if i < left.len() + 6 {
            assert(line[i] == "data: "@[i - left.len()]);
        } else if i < left.len() + core.len() {
            assert(line[i] == data[i - left.len() - 6]);
            assert(data.contains(line[i]));
        } else {
            assert(line[i] == right[i - left.len() - core.len()]);
            assert(right.contains(line[i]));
        }
    }
    lemma_length_of_line(line, rest);
    let n = line.len() as int;
    assert(s.take(n) =~= line);
    assert(s.skip(n + 1) =~= rest);
    assert(core.take(6) =~= "data: "@);
    assert(core.skip(6) =~= data);
    a_document_says_its_text(parsed(data));
}

/// A line that holds no data changes nothing: what is left of it without the white space around
/// it does not begin with the mark of data.
pub proof fn a_line_without_data_says_nothing(
    left: Seq<char>,
    core: Seq<char>,
    right: Seq<char>,
    rest: Seq<char>,
)
    requires
        is_all_space(left),
        is_all_space(right),
        core.len() > 0 ==> !is_space(core[0]) && !is_space(core.last()),
        !(left + core + right).contains('\n'),
        core.len() < 6 || core.take(6) != "data: "@,
    ensures
        decoded(left + core + right + seq!['\n'] + rest) == decoded(rest),
{
    reveal_strlit("data: ");
    let line = left + core + right;
    let s = line + seq!['\n'] + rest;
    trimming_leaves_the_core(left, core, right);
    lemma_length_of_line(line, rest);
    let n = line.len() as int;
    assert(s.take(n) =~= line);
    assert(s.skip(n + 1) =~= rest);
}

/// A text without a line end completes no line: it is held back as it is.
pub proof fn an_open_line_is_held_back(s: Seq<char>)
    requires
        !s.contains('\n'),
    ensures
        decoded(s).pieces.len() == 0,
        decoded(s).rest == s,
        !decoded(s).done,
{
    let none = Seq::<char>::empty();
    assert(s + seq!['\n'] + none =~= s + seq!['\n']);
    lemma_length_of_line(s, none);
    lemma_line_length(s, seq!['\n']);
}

/// What a step of decoding gives is seen whole: every piece by its characters, and what a line
/// says by its variant.
pub proof fn steps_are_seen_whole(
    pieces: Seq<String>,
    text: String,
    document: Option<serde_json::Value>,
)
    ensures
        pieces_view(pieces).len() == pieces.len(),
        forall|i: int| 0 <= i < pieces.len() ==> #[trigger] pieces_view(pieces)[i] == pieces[i]@,
        LineEvent::Piece(text)@ == LineView::Piece(text@),
        LineEvent::Nothing@ == LineView::Nothing,
        LineEvent::Done@ == LineView::Done,
        document_view(document) is Some <==> document is Some,
        document matches Some(value) ==> document_view(document) == Some(contents(value)),
{
}

} // verus!
