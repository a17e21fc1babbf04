use vstd::prelude::*;
use vstd::string::*;
use crate::json::{get_member, json_of_text, member, parse_json, Json, JsonView};
use crate::text::owned;

verus! {

/// Asks a language model for the emotion of a prompt, and reads its reply.
pub struct EmotionAnalyzer;

/// The request's text before the prompt.
pub open spec fn request_head() -> Seq<char> {
    "Classify this prompt's emotion. Reply with ONLY a JSON object like {\"emotion\":\"happy\",\"intensity\":0.7}. Emotions: happy (praise, gratitude), sad (frustration, anger), neutral (instructions, questions). Intensity 0-1. ALL CAPS increases intensity by 0.2. Prompt: \""@
}

/// The most characters of a prompt that the request quotes.
pub open spec fn quoted_limit() -> nat {
    500
}

/// The request for the emotion of `prompt`: the instructions, then the first
/// 500 characters of the prompt in quotes.
pub open spec fn analysis_request(prompt: Seq<char>) -> Seq<char> {
    let n = if prompt.len() < quoted_limit() { prompt.len() } else { quoted_limit() };
    request_head() + prompt.take(n as int) + "\""@
}

/// The first position of `c` in `s`.
pub open spec fn first_at(s: Seq<char>, c: char, i: int) -> bool {
    0 <= i < s.len() && s[i] == c && forall|j: int| 0 <= j < i ==> s[j] != c
}

/// The last position of `c` in `s`.
pub open spec fn last_at(s: Seq<char>, c: char, i: int) -> bool {
    0 <= i < s.len() && s[i] == c && forall|j: int| i < j < s.len() ==> s[j] != c
}

/// Where the JSON object of a reply lies: from its first opening brace to just
/// after its last closing brace; nothing if it lacks either.
pub open spec fn reply_span(s: Seq<char>) -> Option<(int, int)> {
    if exists|i: int| first_at(s, '{', i) && exists|j: int| last_at(s, '}', j) {
        Some((choose|i: int| first_at(s, '{', i), (choose|j: int| last_at(s, '}', j)) + 1))
    } else {
        None
    }
}

/// A reply whose braces can be cut out: one whose last closing brace does not
/// come before its first opening brace by more than one place.
pub open spec fn span_in_order(s: Seq<char>) -> bool {
    match reply_span(s) {
        Some((a, b)) => a <= b,
        None => true,
    }
}

/// The emotion a parsed reply names, if its member "emotion" is a string.
pub open spec fn reply_emotion_of(reply: JsonView) -> Option<Seq<char>> {
    match member(reply, "emotion"@) {
        Some(JsonView::Str(e)) => Some(e),
        _ => None,
    }
}

/// The digits of a parsed reply's intensity, if its member "intensity" is a number.
pub open spec fn reply_intensity_of(reply: JsonView) -> Option<Seq<char>> {
    match member(reply, "intensity"@) {
        Some(JsonView::Number(n)) => Some(n),
        _ => None,
    }
}

impl EmotionAnalyzer {
    /// The request that asks for the emotion of `prompt`.
    pub fn analysis_prompt(prompt: &str) -> (r: String)
        ensures
            r@ == analysis_request(prompt@),
    {
        let n = prompt.unicode_len();
        let cut: usize = if n < 500 { n } else { 500 };
        let quoted = prompt.substring_char(0, cut);
        let mut r = owned("Classify this prompt's emotion. Reply with ONLY a JSON object like {\"emotion\":\"happy\",\"intensity\":0.7}. Emotions: happy (praise, gratitude), sad (frustration, anger), neutral (instructions, questions). Intensity 0-1. ALL CAPS increases intensity by 0.2. Prompt: \"");
        r.append(quoted);
        r.append("\"");
        proof {
            assert(prompt@.subrange(0, cut as int) =~= prompt@.take(cut as int));
        }
        r
    }

    /// Where the JSON object of a reply lies, in characters (see `reply_span`).
    pub fn reply_object_span(text: &str) -> (r: Option<(usize, usize)>)
        ensures
            match r {
                Some((a, b)) => reply_span(text@) == Some((a as int, b as int)),
                None => reply_span(text@) is None,
            },
    {
        let n = text.unicode_len();
        let mut first: Option<usize> = None;
        let mut i: usize = 0;
        while i < n
            invariant
                n == text@.len(),
                i <= n,
                first is None ==> forall|j: int| 0 <= j < i ==> text@[j] != '{',
                first is Some ==> first_at(text@, '{', first->0 as int),
            decreases n - i,
        {
            if first.is_none() && text.get_char(i) == '{' {
                first = Some(i);
            }
            i = i + 1;
        }
        let mut last: Option<usize> = None;
        let mut k: usize = n;
        while k > 0
            invariant
                n == text@.len(),
                k <= n,
                last is None ==> forall|j: int| k <= j < n ==> text@[j] != '}',
                last is Some ==> last_at(text@, '}', last->0 as int),
            decreases k,
        {
            if last.is_none() && text.get_char(k - 1) == '}' {
                last = Some(k - 1);
            }
            k = k - 1;
        }
        match (first, last) {
            (Some(a), Some(b)) => {
                proof {
                    let s = text@;
                    let ca = choose|x: int| first_at(s, '{', x);
                    let cb = choose|x: int| last_at(s, '}', x);
                    assert(first_at(s, '{', ca));
                    assert(last_at(s, '}', cb));
                    if ca < a {
                        assert(s[ca] != '{');
                    } else if a < ca {
                        assert(s[a as int] != '{');
                    }
                    if cb < b {
                        assert(s[b as int] != '}');
                    } else if b < cb {
                        assert(s[cb] != '}');
                    }
                }
                Some((a, b + 1))
            },
            _ => {
                proof {
                    let s = text@;
                    if exists|x: int| first_at(s, '{', x) && exists|y: int| last_at(s, '}', y) {
                        let x = choose|x: int| first_at(s, '{', x);
                        let y = choose|y: int| last_at(s, '}', y);
                        assert(s[x] == '{' && s[y] == '}');
                    }
                }
                None
            },
        }
    }

    /// The JSON object of a reply, cut out of its text (see `reply_span`).
    pub fn reply_object_text(text: &str) -> (r: Option<String>)
        requires
            span_in_order(text@),
        ensures
            match reply_span(text@) {
                Some((a, b)) => r matches Some(t) && t@ == text@.subrange(a, b),
                None => r is None,
            },
    {
        match EmotionAnalyzer::reply_object_span(text) {
            Some((a, b)) => Some(owned(text.substring_char(a, b))),
            None => None,
        }
    }

    /// Reads a reply: the emotion its JSON object names and the digits of its
    /// intensity; nothing where the reply has no JSON object, the object is not
    /// JSON, or it names no emotion.
    pub fn read_reply(text: &str) -> (r: Option<(String, Option<String>)>)
        requires
            span_in_order(text@),
        ensures
            match reply_span(text@) {
                None => r is None,
                Some((a, b)) => match json_of_text(text@.subrange(a, b)) {
                    None => r is None,
                    Some(v) => match reply_emotion_of(v) {
                        None => r is None,
                        Some(e) => r matches Some((es, i)) && es@ == e
                            && crate::models::opt_text(i) == reply_intensity_of(v),
                    },
                },
            },
    {
        let json_text = match EmotionAnalyzer::reply_object_text(text) {
            Some(t) => t,
            None => return None,
        };
        let reply = match parse_json(json_text.as_str()) {
            Ok(d) => d,
            Err(_) => return None,
        };
        let emotion = match EmotionAnalyzer::reply_emotion(&reply) {
            Some(e) => e,
            None => return None,
        };
        Some((emotion, EmotionAnalyzer::reply_intensity(&reply)))
    }

    /// The emotion a parsed reply names (see `reply_emotion_of`).
    pub fn reply_emotion(reply: &Json) -> (r: Option<String>)
        ensures
            crate::models::opt_text(r) == reply_emotion_of(reply@),
    {
        match get_member(reply, "emotion") {
            Some(Json::Str(e)) => Some(e.clone()),
            _ => None,
        }
    }

    /// The digits of a parsed reply's intensity (see `reply_intensity_of`).
    pub fn reply_intensity(reply: &Json) -> (r: Option<String>)
        ensures
            crate::models::opt_text(r) == reply_intensity_of(reply@),
    {
        match get_member(reply, "intensity") {
            Some(Json::Number(n)) => Some(n.digits().clone()),
            _ => None,
        }
    }
}

} // verus!
