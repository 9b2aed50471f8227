use vstd::prelude::*;
use rustc_serialize::json::Json;

verus! {

/// A key that a player can press.
#[derive(Debug, Clone, Copy, PartialEq, Eq, Structural)]
pub enum Key {
    LEFT,
    RIGHT,
    ROTATION,
    DOWN,
}

/// A message received from a client.
#[derive(Debug, Clone)]
pub enum UserRx {
    KeyPress { key: Key },
    Closed,
    ParsingError(String),
}

/// The mathematical value of a client message: the text of an error is a
/// sequence of characters.
pub enum RxView {
    KeyPress(Key),
    Closed,
    ParsingError(Seq<char>),
}

impl View for UserRx {
    type V = RxView;

    open spec fn view(&self) -> RxView {
        match self {
            UserRx::KeyPress { key } => RxView::KeyPress(*key),
            UserRx::Closed => RxView::Closed,
            UserRx::ParsingError(s) => RxView::ParsingError(s@),
        }
    }
}

/// Whether `text` is a well-formed JSON document, as the JSON parser of
/// `rustc_serialize` decides it.
pub uninterp spec fn json_text_parses(text: Seq<char>) -> bool;

/// The member `key` of the JSON document `text`: `None` when `text` does not
/// parse, is not an object or has no such member; `Some(Some(s))` when the
/// member is the string `s`; `Some(None)` when it is some other value.
pub uninterp spec fn json_text_member(text: Seq<char>, key: Seq<char>) -> Option<Option<Seq<char>>>;

/// The `Debug` rendering of a string (quoted and escaped).
pub uninterp spec fn str_debug_text(s: Seq<char>) -> Seq<char>;

/// The `Debug` rendering of an optional string: `None`, or `Some(`, the
/// rendering of the string and `)`.
pub open spec fn option_str_debug_text(o: Option<Seq<char>>) -> Seq<char> {
    match o {
        None => "None"@,
        Some(s) => "Some("@ + str_debug_text(s) + ")"@,
    }
}

/// The longest message, in characters, that the library reads. The JSON
/// parser panics on object keys of 65536 bytes or more and recurses once
/// per level of nesting, so longer texts are left out.
pub const MAX_MESSAGE_CHARS: usize = 1024;

pub open spec fn opt_view(o: Option<String>) -> Option<Seq<char>> {
    match o {
        Some(s) => Some(s@),
        None => None,
    }
}

pub open spec fn opt_opt_view(o: Option<Option<String>>) -> Option<Option<Seq<char>>> {
    match o {
        Some(i) => Some(opt_view(i)),
        None => None,
    }
}

/// The string value of a member, when it is a string.
pub open spec fn member_string(m: Option<Option<Seq<char>>>) -> Option<Seq<char>> {
    match m {
        Some(Some(s)) => Some(s),
        _ => None,
    }
}

/// The key that the one-letter code `s` names: `l`eft, `r`ight, `d`own and
/// `t`urn.
pub open spec fn key_of_letter(s: Seq<char>) -> Option<Key> {
    if s == "l"@ {
        Some(Key::LEFT)
    } else if s == "r"@ {
        Some(Key::RIGHT)
    } else if s == "d"@ {
        Some(Key::DOWN)
    } else if s == "t"@ {
        Some(Key::ROTATION)
    } else {
        None
    }
}

/// The error text for an unknown operation or key.
pub open spec fn unknown_key_text(detail: Seq<char>) -> Seq<char> {
    "Unknown key "@ + detail
}

/// What a message means, given its text, the string value of its member
/// `op` and its member `d`.
pub open spec fn rx_of_fields(
    text: Seq<char>,
    op: Option<Seq<char>>,
    d: Option<Option<Seq<char>>>,
) -> RxView {
    match op {
        None => RxView::ParsingError(text),
        Some(o) => if o == "key"@ && d is Some {
            let data = d->0;
            match data {
                Some(letter) => match key_of_letter(letter) {
                    Some(k) => RxView::KeyPress(k),
                    None => RxView::ParsingError(unknown_key_text(option_str_debug_text(data))),
                },
                None => RxView::ParsingError(unknown_key_text(option_str_debug_text(data))),
            }
        } else {
            RxView::ParsingError(unknown_key_text(str_debug_text(o)))
        },
    }
}

/// What a client message `text` means.
pub open spec fn rx_of_text(text: Seq<char>) -> RxView {
    if !json_text_parses(text) {
        RxView::ParsingError("not json!"@)
    } else {
        rx_of_fields(
            text,
            member_string(json_text_member(text, "op"@)),
            json_text_member(text, "d"@),
        )
    }
}

/// Calls `Json::from_str` of `rustc_serialize` on `text`, then `Json::find`
/// and `Json::as_string` for the members `first` and `second`. Claims that
/// the answer is `None` exactly when the text does not parse, and that the
/// members are those that the names `json_text_parses` and
/// `json_text_member` give, functions of the text and the member's name
/// alone; what those functions are, the parser decides.
/// The texts it is given are at most `MAX_MESSAGE_CHARS` characters, so
/// at most 4096 bytes: no key reaches the 65536 bytes at which the parser
/// panics, and no nesting is deep enough to exhaust a thread's stack.
#[verifier::external_body]
fn json_members(text: &str, first: &str, second: &str) -> (r: Option<(Option<Option<String>>, Option<Option<String>>)>)
    requires
        text@.len() <= MAX_MESSAGE_CHARS,
    ensures
        r is Some == json_text_parses(text@),
        r matches Some((a, b)) ==> opt_opt_view(a) == json_text_member(text@, first@) && opt_opt_view(b)
            == json_text_member(text@, second@),
{
    match Json::from_str(text) {
        Ok(root) => {
            let a = match root.find(first) { Some(v) => Some(v.as_string().map(String::from)), None => None };
            let b = match root.find(second) { Some(v) => Some(v.as_string().map(String::from)), None => None };
            Some((a, b))
        },
        Err(_) => None,
    }
}

/// Formats a string with `{:?}`.
#[verifier::external_body]
fn debug_str(s: &String) -> (r: String)
    ensures
        r@ == str_debug_text(s@),
{
    format!("{:?}", s.as_str())
}

/// Formats an optional string with `{:?}`, which std derives for `Option`:
/// `None`, or `Some(` followed by the `Debug` rendering of the string and
/// `)`.
#[verifier::external_body]
fn debug_option_str(o: &Option<String>) -> (r: String)
    ensures
        r@ == option_str_debug_text(opt_view(*o)),
{
    format!("{:?}", o.as_deref())
}

fn unknown_key(detail: String) -> (r: String)
    ensures
        r@ == unknown_key_text(detail@),
{
    let prefix = String::from_str("Unknown key ");
    proof {
        reveal_strlit("Unknown key ");
    }
    prefix.concat(detail.as_str())
}

fn letter_key(s: &String) -> (k: Option<Key>)
    ensures
        k == key_of_letter(s@),
{
    proof {
        reveal_strlit("l");
        reveal_strlit("r");
        reveal_strlit("d");
        reveal_strlit("t");
    }
    if *s == String::from_str("l") {
        Some(Key::LEFT)
    } else if *s == String::from_str("r") {
        Some(Key::RIGHT)
    } else if *s == String::from_str("d") {
        Some(Key::DOWN)
    } else if *s == String::from_str("t") {
        Some(Key::ROTATION)
    } else {
        None
    }
}

impl UserRx {
    /// Reads a message from the string value of its member `op` and its
    /// member `d` (see `json_text_member`); `json` is the whole text.
    pub fn from_json_parts(json: String, op: Option<String>, d: Option<Option<String>>) -> (r: UserRx)
        ensures
            r@ == rx_of_fields(json@, opt_view(op), opt_opt_view(d)),
    {
        match op {
            None => UserRx::ParsingError(json),
            Some(o) => {
                let is_key = o == String::from_str("key");
                proof {
                    reveal_strlit("key");
                }
                if is_key && d.is_some() {
                    let data = d.unwrap();
                    match &data {
                        Some(letter) => match letter_key(letter) {
                            Some(k) => UserRx::KeyPress { key: k },
                            None => UserRx::ParsingError(unknown_key(debug_option_str(&data))),
                        },
                        None => UserRx::ParsingError(unknown_key(debug_option_str(&data))),
                    }
                } else {
                    UserRx::ParsingError(unknown_key(debug_str(&o)))
                }
            },
        }
    }

    /// Reads a client message of at most `MAX_MESSAGE_CHARS` characters:
    /// `{"op": "key", "d": <letter>}` is a key press; anything else is a
    /// parsing error that says why.
    #[allow(non_snake_case)]
    pub fn fromJson(json: String) -> (r: UserRx)
        requires
            json@.len() <= MAX_MESSAGE_CHARS,
        ensures
            r@ == rx_of_text(json@),
    {
        proof {
            reveal_strlit("op");
            reveal_strlit("d");
        }
        let members = json_members(json.as_str(), "op", "d");
        match members {
            None => {
                proof {
                    reveal_strlit("not json!");
                }
                UserRx::ParsingError(String::from_str("not json!"))
            },
            Some((op_member, d)) => {
                let op = match op_member {
                    Some(Some(s)) => Some(s),
                    _ => None,
                };
                UserRx::from_json_parts(json, op, d)
            },
        }
    }
}

} // verus!
