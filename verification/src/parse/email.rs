//! RFC 5322 email.
//!
//! Only the subject and text bodies are taken. Headers beyond the subject are routing
//! metadata: they contain addresses and message-ids that are identifier-shaped and would
//! swamp the identifier stage with content nobody would ever search for.
//!
//! Quoted blocks and signatures are stripped in canonicalisation rather than here, so a
//! caller regenerating canonical text to resolve offsets gets identical treatment.

use vstd::prelude::*;
use vstd::string::StringExecFns;

use super::{RawText, SourceKind, TextExtractor};
use crate::config::Config;
use crate::error::ExtractError;

verus! {

/// A message as `mail_parser` reads it: its subject, and the text of each of its text
/// bodies (`None` for a body that has no text form). `None` when the bytes do not parse
/// as a message.
pub uninterp spec fn parsed_message(bytes: Seq<u8>) -> Option<(Option<Seq<char>>, Seq<Option<Seq<char>>>)>;

pub open spec fn opt_text(o: Option<String>) -> Option<Seq<char>> {
    match o {
        Some(s) => Some(s@),
        None => None,
    }
}

pub open spec fn opt_texts(v: Seq<Option<String>>) -> Seq<Option<Seq<char>>> {
    v.map_values(|o: Option<String>| opt_text(o))
}

/// `MessageParser::default().parse`, then `Message::subject` and `Message::body_text` for
/// every index below `text_body_count()`.
#[verifier::external_body]
fn parse_message(bytes: &[u8]) -> (r: Option<(Option<String>, Vec<Option<String>>)>)
    ensures
        r is Some <==> parsed_message(bytes@) is Some,
        r is Some ==> opt_text(r.unwrap().0) == parsed_message(bytes@).unwrap().0,
        r is Some ==> opt_texts(r.unwrap().1@) == parsed_message(bytes@).unwrap().1,
{
    let msg = mail_parser::MessageParser::default().parse(bytes)?;
    let mut bodies = Vec::new();
    for i in 0..msg.text_body_count() {
        bodies.push(msg.body_text(i).map(|b| b.into_owned()));
    }
    Some((msg.subject().map(|s| s.to_string()), bodies))
}

/// The text bodies present, each followed by a newline.
pub open spec fn bodies_text(bodies: Seq<Option<Seq<char>>>) -> Seq<char>
    decreases bodies.len(),
{
    if bodies.len() == 0 {
        Seq::empty()
    } else {
        bodies_text(bodies.drop_last()) + match bodies.last() {
            Some(b) => b + seq!['\n'],
            None => Seq::empty(),
        }
    }
}

/// A message's text: the subject on a line of its own, then each text body followed by
/// a newline. A message whose only body is HTML yields nothing beyond its subject.
pub open spec fn spec_email_text(subject: Option<Seq<char>>, bodies: Seq<Option<Seq<char>>>) -> Seq<char> {
    match subject {
        Some(s) => s + seq!['\n'] + bodies_text(bodies),
        None => bodies_text(bodies),
    }
}

/// A message's text, given its subject and text bodies.
pub fn email_text(subject: &Option<String>, bodies: &Vec<Option<String>>) -> (r: String)
    ensures
        r@ == spec_email_text(opt_text(*subject), opt_texts(bodies@)),
{
    let mut text = String::new();
    match subject {
        Some(s) => {
            text.append(s.as_str());
            text.append("\n");
            proof {
                reveal_strlit("\n");
            }
        },
        None => {},
    }
    let ghost head = text@;
    let ghost bs = opt_texts(bodies@);
    let mut i: usize = 0;
    proof {
        assert(bs.take(0) =~= Seq::<Option<Seq<char>>>::empty());
        assert(head =~= head + bodies_text(bs.take(0)));
    }
    while i < bodies.len()
        invariant
            bs == opt_texts(bodies@),
            i <= bodies.len(),
            text@ == head + bodies_text(bs.take(i as int)),
        decreases bodies.len() - i,
    {
        proof {
            assert(bs.take(i + 1).drop_last() =~= bs.take(i as int));
            assert(bs.take(i + 1).last() == opt_text(bodies@[i as int]));
        }
        match &bodies[i] {
            Some(b) => {
                text.append(b.as_str());
                text.append("\n");
                proof {
                    reveal_strlit("\n");
                }
            },
            None => {},
        }
        proof {
            assert(text@ =~= head + bodies_text(bs.take(i + 1)));
        }
        i = i + 1;
    }
    proof {
        assert(bs.take(bodies.len() as int) =~= bs);
    }
    text
}

pub struct EmailExtractor;

impl TextExtractor for EmailExtractor {
    /// The subject and text bodies of a message; a parse error when the bytes are not a
    /// message.
    fn extract(&self, bytes: &[u8], _cfg: &Config) -> (r: Result<RawText, ExtractError>)
        ensures
            r is Ok <==> parsed_message(bytes@) is Some,
            r is Ok ==> r->Ok_0.text@ == spec_email_text(parsed_message(bytes@).unwrap().0, parsed_message(bytes@).unwrap().1)
                && r->Ok_0.source == SourceKind::Email && r->Ok_0.text_layer_present is None,
            r is Err ==> (r->Err_0 matches ExtractError::Parse(m) && m@ == "email: unparseable"@),
    {
        match parse_message(bytes) {
            None => Err(ExtractError::Parse(String::from_str("email: unparseable"))),
            Some((subject, bodies)) => Ok(RawText::new(email_text(&subject, &bodies), SourceKind::Email)),
        }
    }
}

} // verus!
