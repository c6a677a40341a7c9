//! The topic classifier: maps an inbound topic string, together with
//! whether its payload decoded under the family schema, to exactly one of
//! the recognized classes — an economics family event, a chat-like message,
//! or an opaque blob.
//!
//! The economics families are recognized by exact topic names under the
//! `econ.` prefix; the family set is closed: vouching, mutual credit,
//! governance, and resource pooling. A topic that merely mentions chat,
//! content, or direct messaging is chat-like.

use vstd::prelude::*;
use vstd::std_specs::iter::IteratorSpec;

verus! {

/// The closed set of economics families.
#[derive(Debug, Clone, Copy, PartialEq, Eq, Structural)]
pub enum EconomicsFamily {
    Vouch,
    Credit,
    Governance,
    Resource,
}

/// The classification of one inbound `(topic, payload)` pair.
#[derive(Debug, Clone, Copy, PartialEq, Eq, Structural)]
pub enum TopicClass {
    /// A recognized economics topic whose payload decoded.
    Economics(EconomicsFamily),
    /// A chat, content, or direct-message topic.
    ChatLike,
    /// Anything else, including an economics topic whose payload did not
    /// decode.
    Opaque,
}

/// The economics family a topic names, if any.
pub open spec fn spec_econ_family(t: Seq<char>) -> Option<EconomicsFamily> {
    if t == "econ.vouch"@ {
        Some(EconomicsFamily::Vouch)
    } else if t == "econ.credit"@ {
        Some(EconomicsFamily::Credit)
    } else if t == "econ.governance"@ {
        Some(EconomicsFamily::Governance)
    } else if t == "econ.resource"@ {
        Some(EconomicsFamily::Resource)
    } else {
        None
    }
}

/// Whether `needle` occurs contiguously inside `hay`.
pub open spec fn has_substring(hay: Seq<char>, needle: Seq<char>) -> bool {
    exists|i: int|
        0 <= i <= hay.len() - needle.len() && #[trigger] hay.subrange(i, i + needle.len())
            == needle
}

/// Whether the topic sounds like chat: it mentions chat, content, or
/// direct messaging.
pub open spec fn spec_chat_like(t: Seq<char>) -> bool {
    has_substring(t, "chat"@) || has_substring(t, "content"@) || has_substring(t, "direct"@)
}

/// The classification rule: an economics topic is an economics event when
/// its payload decodes and opaque otherwise; any other topic is chat-like
/// when it sounds like chat, and opaque in every remaining case.
pub open spec fn spec_classify(t: Seq<char>, payload_decodes: bool) -> TopicClass {
    match spec_econ_family(t) {
        Some(family) => if payload_decodes {
            TopicClass::Economics(family)
        } else {
            TopicClass::Opaque
        },
        None => if spec_chat_like(t) {
            TopicClass::ChatLike
        } else {
            TopicClass::Opaque
        },
    }
}

/// Classification is total and exclusive: every `(topic, payload)` pair
/// falls in exactly one class, and each class is reached exactly under its
/// own rule.
pub proof fn lemma_classification_total(t: Seq<char>, payload_decodes: bool)
    ensures
        spec_classify(t, payload_decodes) matches TopicClass::Economics(f) ==> spec_econ_family(t)
            == Some(f) && payload_decodes,
        forall|f: EconomicsFamily|
            spec_econ_family(t) == Some(f) && payload_decodes ==> spec_classify(
                t,
                payload_decodes,
            ) == TopicClass::Economics(f),
        spec_classify(t, payload_decodes) == TopicClass::ChatLike <==> (spec_econ_family(t)
            is None && spec_chat_like(t)),
        spec_classify(t, payload_decodes) == TopicClass::Opaque <==> ((spec_econ_family(t) is Some
            && !payload_decodes) || (spec_econ_family(t) is None && !spec_chat_like(t))),
{
}

/// The characters of a string, in order.
pub fn chars_of(s: &str) -> (r: Vec<char>)
    ensures
        r@ == s@,
{
    broadcast use vstd::string::axiom_spec_iter;
    broadcast use vstd::string::next_postcondition;

    let mut it = s.chars();
    let mut out: Vec<char> = Vec::new();
    loop
        invariant
            it.obeys_prophetic_iter_laws(),
            out@ + it.remaining() == s@,
            out@.len() <= s@.len(),
        decreases s@.len() - out@.len(),
    {
        let ghost prev = it.remaining();
        match it.next() {
            Some(c) => {
                out.push(c);
                proof {
                    assert(out@ + it.remaining() =~= s@);
                }
            },
            None => {
                proof {
                    assert(out@ =~= s@);
                }
                return out;
            },
        }
    }
}

/// Whether `needle` occurs contiguously inside `hay`.
pub fn contains_chars(hay: &Vec<char>, needle: &Vec<char>) -> (r: bool)
    ensures
        r == has_substring(hay@, needle@),
{
    let n = hay.len();
    let m = needle.len();
    if m > n {
        proof {
            if has_substring(hay@, needle@) {
                let w = choose|i: int|
                    0 <= i <= hay@.len() - needle@.len() && #[trigger] hay@.subrange(
                        i,
                        i + needle@.len(),
                    ) == needle@;
            }
        }
        return false;
    }
    let mut i: usize = 0;
    while i <= n - m
        invariant
            n == hay@.len(),
            m == needle@.len(),
            m <= n,
            i <= n - m + 1,
            forall|j: int| 0 <= j < i ==> #[trigger] hay@.subrange(j, j + m) != needle@,
        decreases n + 1 - i,
    {
        let mut k: usize = 0;
        let mut matched = true;
        while k < m
            invariant
                n == hay@.len(),
                m == needle@.len(),
                m <= n,
                i <= n - m,
                k <= m,
                matched == (forall|t: int| 0 <= t < k ==> hay@[i + t] == #[trigger] needle@[t]),
            decreases m - k,
        {
            let ghost was = matched;
            if hay[i + k] != needle[k] {
                matched = false;
                proof {
                    assert(!(forall|t: int|
                        0 <= t < k + 1 ==> hay@[i + t] == #[trigger] needle@[t])) by {
                        assert(hay@[i + k] != needle@[k as int]);
                    }
                }
            } else {
                proof {
                    if was {
                        assert forall|t: int| 0 <= t < k + 1 implies hay@[i + t]
                            == #[trigger] needle@[t] by {
                            if t < k {
                                assert(hay@[i + t] == needle@[t]);
                            }
                        }
                    } else {
                        let w = choose|t: int| 0 <= t < k && hay@[i + t] != #[trigger] needle@[t];
                        assert(hay@[i + w] != needle@[w]);
                    }
                }
            }
            k = k + 1;
        }
        if matched {
            proof {
                assert(hay@.subrange(i as int, i + m) =~= needle@);
                assert(has_substring(hay@, needle@));
            }
            return true;
        }
        proof {
            assert(hay@.subrange(i as int, i + m) != needle@) by {
                let w = choose|t: int| 0 <= t < m && hay@[i + t] != #[trigger] needle@[t];
                assert(hay@.subrange(i as int, i + m)[w] == hay@[i + w]);
            }
        }
        i = i + 1;
    }
    proof {
        if has_substring(hay@, needle@) {
            let w = choose|j: int|
                0 <= j <= hay@.len() - needle@.len() && #[trigger] hay@.subrange(
                    j,
                    j + needle@.len(),
                ) == needle@;
            assert(hay@.subrange(w, w + m) != needle@);
        }
    }
    false
}

/// Whether the topic names an economics family, and which.
pub fn econ_family(topic: &str) -> (r: Option<EconomicsFamily>)
    ensures
        r == spec_econ_family(topic@),
{
    let t = topic.to_owned();
    if t == "econ.vouch".to_owned() {
        Some(EconomicsFamily::Vouch)
    } else if t == "econ.credit".to_owned() {
        Some(EconomicsFamily::Credit)
    } else if t == "econ.governance".to_owned() {
        Some(EconomicsFamily::Governance)
    } else if t == "econ.resource".to_owned() {
        Some(EconomicsFamily::Resource)
    } else {
        None
    }
}

/// Whether the topic names an economics family at all.
pub fn is_economics_topic(topic: &str) -> (r: bool)
    ensures
        r == (spec_econ_family(topic@) is Some),
{
    match econ_family(topic) {
        Some(_) => true,
        None => false,
    }
}

/// Whether the topic sounds like chat.
pub fn is_chat_like(topic: &str) -> (r: bool)
    ensures
        r == spec_chat_like(topic@),
{
    let t = chars_of(topic);
    let chat = chars_of("chat");
    let content = chars_of("content");
    let direct = chars_of("direct");
    contains_chars(&t, &chat) || contains_chars(&t, &content) || contains_chars(&t, &direct)
}

/// Classify one inbound `(topic, payload)` pair; `payload_decodes` reports
/// whether the payload decoded under the family schema of the topic.
pub fn classify_topic(topic: &str, payload_decodes: bool) -> (r: TopicClass)
    ensures
        r == spec_classify(topic@, payload_decodes),
{
    match econ_family(topic) {
        Some(family) => {
            if payload_decodes {
                TopicClass::Economics(family)
            } else {
                TopicClass::Opaque
            }
        },
        None => {
            if is_chat_like(topic) {
                TopicClass::ChatLike
            } else {
                TopicClass::Opaque
            }
        },
    }
}

} // verus!
