//! The addresses of the two parties of a session.

use vstd::prelude::*;
use crate::text::{head, split_once, tail};

verus! {

/// Whether `text` is a Jabber address: a domain; before it, where an `@`
/// stands before the first `/`, a node and that `@`; after it, where there
/// is a `/`, the first `/` and a resource. None of the three is empty.
pub open spec fn is_address(text: Seq<char>) -> bool {
    let front = head(text, '/');
    &&& match split_once(front, '@') {
        Some((node, domain)) => node.len() > 0 && domain.len() > 0,
        None => front.len() > 0,
    }
    &&& tail(text, '/') matches Some(resource) ==> resource.len() > 0
}

/// The address that `text` is read as: the text itself, where it is one.
pub open spec fn jid_text(text: Seq<char>) -> Option<Seq<char>> {
    if is_address(text) {
        Some(text)
    } else {
        None
    }
}

/// Reads `text` as a Jabber address with `xmpp_parsers::Jid`'s `FromStr` and
/// writes the address out again with its `Display`. The parser takes what
/// stands before the first `@` or `/` as the node, where an `@` ends it,
/// what follows up to the first `/` as the domain, and the rest as the
/// resource; it refuses an empty node, domain or resource and changes
/// nothing. The writer puts the parts together again with the `@` and the
/// `/`, so an address that is read is written out as it was given.
#[verifier::external_body]
pub(crate) fn read_jid(text: &str) -> (out: Option<String>)
    ensures
        out.deep_view() == jid_text(text@),
{
    text.parse::<xmpp_parsers::Jid>().ok().map(|jid| jid.to_string())
}

/// Whether an address, where there is one, can be read.
pub open spec fn identity_sound(identity: Option<Seq<char>>) -> bool {
    match identity {
        Some(text) => jid_text(text) is Some,
        None => true,
    }
}

/// Whether an address, where there is one, can be read.
pub fn check_identity(identity: &Option<String>) -> (out: bool)
    ensures
        out == identity_sound(identity.deep_view()),
{
    match identity {
        Some(text) => read_jid(text.as_str()).is_some(),
        None => true,
    }
}

} // verus!
