//! The prefix key of a request, and whether a request asks a replica to fetch
//! media from the internet.

use crate::config::ProxyConfig;
use crate::json::{
    element_texts, elements, elements_in, is_json, member, member_str, member_text, member_texts, str_in, string_member, text_in,
};
use crate::text::{
    is_prefix_in_either_case, same_text, starts_with_in_either_case, string_views, text_view,
};
use vstd::prelude::*;
use vstd::string::*;
use vstd::utf8::encode_utf8;

verus! {

/// What the prefix key of a request is made of.
#[derive(Debug)]
pub enum KeySource {
    /// The texts of these members, one after the other.
    Members(Vec<String>),
    /// The string in this member.
    Text(String),
    /// Nothing.
    Nothing,
}

pub open spec fn is_chat(path: Seq<char>) -> bool {
    path == "/v1/chat/completions"@
}

pub open spec fn is_completion(path: Seq<char>) -> bool {
    path == "/v1/completions"@
}

pub open spec fn is_messages(path: Seq<char>) -> bool {
    path == "/v1/messages"@
}

/// The members whose texts make up the prefix key of an endpoint.
pub open spec fn key_members(path: Seq<char>) -> Seq<Seq<char>> {
    if is_chat(path) {
        seq!["messages"@]
    } else if is_messages(path) {
        seq!["tools"@, "system"@, "messages"@]
    } else {
        Seq::empty()
    }
}

/// An optional text, or the empty one.
pub open spec fn or_empty(s: Option<Seq<char>>) -> Seq<char> {
    match s {
        Some(t) => t,
        None => Seq::empty(),
    }
}

/// The texts that are there, one after the other.
pub open spec fn joined_parts(parts: Seq<Option<String>>) -> Seq<char>
    decreases parts.len(),
{
    if parts.len() == 0 {
        Seq::empty()
    } else {
        joined_parts(parts.drop_last()) + or_empty(text_view(parts.last()))
    }
}

/// The texts of the members that are there, one after the other.
pub open spec fn joined_members(body: Seq<u8>, keys: Seq<Seq<char>>) -> Seq<char>
    decreases keys.len(),
{
    if keys.len() == 0 {
        Seq::empty()
    } else {
        joined_members(body, keys.drop_last()) + or_empty(text_in(body, keys.last()))
    }
}

/// The prefix key of a request.
pub open spec fn request_text(body: Seq<u8>, path: Seq<char>) -> Seq<char> {
    if is_completion(path) {
        or_empty(str_in(body, "prompt"@))
    } else {
        joined_members(body, key_members(path))
    }
}

/// What the prefix key of an endpoint is made of: the messages of a chat, the
/// prompt of a completion; where the system prompt is a member of its own, the
/// tools, the system prompt and the messages.
pub fn key_source(path: &str) -> (r: KeySource)
    ensures
        match r {
            KeySource::Members(keys) => (is_chat(path@) || is_messages(path@)) && string_views(keys@) == key_members(
                path@,
            ),
            KeySource::Text(key) => is_completion(path@) && key@ == "prompt"@,
            KeySource::Nothing => !is_chat(path@) && !is_messages(path@) && !is_completion(path@),
        },
{
    let mut keys: Vec<String> = Vec::new();
    if same_text(path, "/v1/chat/completions") {
        keys.push("messages".to_owned());
        assert(string_views(keys@) =~= key_members(path@));
        KeySource::Members(keys)
    } else if same_text(path, "/v1/completions") {
        KeySource::Text("prompt".to_owned())
    } else if same_text(path, "/v1/messages") {
        keys.push("tools".to_owned());
        keys.push("system".to_owned());
        keys.push("messages".to_owned());
        assert(string_views(keys@) =~= key_members(path@));
        KeySource::Members(keys)
    } else {
        KeySource::Nothing
    }
}

/// The texts that are there, one after the other.
pub fn join_parts(parts: &Vec<Option<String>>) -> (r: String)
    ensures
        r@ == joined_parts(parts@),
{
    let mut text = String::new();
    let mut i: usize = 0;
    assert(parts@.take(0) =~= Seq::empty());
    while i < parts.len()
        invariant
            i <= parts@.len(),
            text@ == joined_parts(parts@.take(i as int)),
        decreases parts.len() - i,
    {
        proof {
            assert(parts@.take(i + 1).drop_last() =~= parts@.take(i as int));
            assert(parts@.take(i + 1).last() == parts@[i as int]);
        }
        match &parts[i] {
            Some(part) => text.append(part.as_str()),
            None => {
                assert(text@ + Seq::<char>::empty() =~= text@);
            },
        }
        i += 1;
    }
    assert(parts@.take(parts@.len() as int) =~= parts@);
    text
}

proof fn lemma_joined(body: Seq<u8>, keys: Seq<String>, parts: Seq<Option<String>>)
    requires
        is_json(body),
        parts.len() == keys.len(),
        forall|i: int| 0 <= i < keys.len() ==> text_view(#[trigger] parts[i]) == member_text(body, keys[i]@),
    ensures
        joined_parts(parts) == joined_members(body, string_views(keys)),
    decreases keys.len(),
{
    if keys.len() > 0 {
        assert forall|i: int| 0 <= i < keys.len() - 1 implies text_view(#[trigger] parts.drop_last()[i])
            == member_text(body, keys.drop_last()[i]@) by {
            assert(text_view(parts[i]) == member_text(body, keys[i]@));
        }
        lemma_joined(body, keys.drop_last(), parts.drop_last());
        assert(string_views(keys).drop_last() =~= string_views(keys.drop_last()));
        assert(text_view(parts[keys.len() - 1]) == member_text(body, keys[keys.len() - 1]@));
    }
}

proof fn lemma_unreadable_members(body: Seq<u8>, keys: Seq<Seq<char>>)
    requires
        !is_json(body),
    ensures
        joined_members(body, keys) == Seq::<char>::empty(),
    decreases keys.len(),
{
    if keys.len() > 0 {
        lemma_unreadable_members(body, keys.drop_last());
    }
    assert(joined_members(body, keys) =~= Seq::empty());
}

/// A body that cannot be read has no key.
pub proof fn lemma_unreadable(body: Seq<u8>, path: Seq<char>)
    requires
        !is_json(body),
    ensures
        request_text(body, path) == Seq::<char>::empty(),
{
    lemma_unreadable_members(body, key_members(path));
}

/// Extracts the text that a request is routed by. It is empty if the body
/// cannot be read.
pub fn extract_request_text(body: &[u8], path: &str) -> (r: String)
    ensures
        r@ == request_text(body@, path@),
        !is_json(body@) ==> r@.len() == 0,
{
    proof {
        if !is_json(body@) {
            lemma_unreadable(body@, path@);
        }
    }
    match key_source(path) {
        KeySource::Members(keys) => {
            proof {
                reveal_strlit("/v1/chat/completions");
                reveal_strlit("/v1/completions");
                reveal_strlit("/v1/messages");
                assert("/v1/chat/completions"@.len() == 20);
                assert("/v1/completions"@.len() == 15);
                assert("/v1/messages"@.len() == 12);
                assert(!is_completion(path@));
            }
            match member_texts(body, &keys) {
                Some(parts) => {
                    proof {
                        lemma_joined(body@, keys@, parts@);
                    }
                    join_parts(&parts)
                },
                None => String::new(),
            }
        },
        KeySource::Text(key) => match string_member(body, key.as_str()) {
            Some(text) => text,
            None => String::new(),
        },
        KeySource::Nothing => {
            let nothing = String::new();
            assert(nothing@ =~= joined_members(body@, key_members(path@)));
            nothing
        },
    }
}

/// The key of each endpoint, member by member.
pub proof fn lemma_request_keys(body: Seq<u8>)
    requires
        is_json(body),
    ensures
        request_text(body, "/v1/chat/completions"@) == or_empty(member_text(body, "messages"@)),
        request_text(body, "/v1/messages"@) == or_empty(member_text(body, "tools"@)) + or_empty(
            member_text(body, "system"@),
        ) + or_empty(member_text(body, "messages"@)),
        request_text(body, "/v1/completions"@) == or_empty(member_str(body, "prompt"@)),
{
    reveal_strlit("/v1/chat/completions");
    reveal_strlit("/v1/completions");
    reveal_strlit("/v1/messages");
    assert("/v1/chat/completions"@.len() == 20);
    assert("/v1/completions"@.len() == 15);
    assert("/v1/messages"@.len() == 12);
    let three = key_members("/v1/messages"@);
    assert(three.drop_last() =~= seq!["tools"@, "system"@]);
    assert(seq!["tools"@, "system"@].drop_last() =~= seq!["tools"@]);
    lemma_one_member(body, "tools"@);
    lemma_one_member(body, "messages"@);
    assert(joined_members(body, seq!["tools"@, "system"@]) == or_empty(member_text(body, "tools"@)) + or_empty(
        member_text(body, "system"@),
    ));
}

proof fn lemma_one_member(body: Seq<u8>, key: Seq<char>)
    ensures
        joined_members(body, seq![key]) == or_empty(text_in(body, key)),
{
    assert(seq![key].drop_last() =~= Seq::empty());
    assert(joined_members(body, Seq::empty()) =~= Seq::empty());
    assert(Seq::<char>::empty() + or_empty(text_in(body, key)) =~= or_empty(text_in(body, key)));
}

// ---------------------------------------------------------------------------
// Remote media
// ---------------------------------------------------------------------------

/// Whether a replica would fetch this address from the internet. The case of a
/// scheme's letters does not matter.
pub open spec fn is_remote(url: Seq<char>) -> bool {
    is_prefix_in_either_case("http://"@, url) || is_prefix_in_either_case("https://"@, url)
}

/// The members of a part of a message that refer to media.
pub open spec fn media_members() -> Seq<Seq<char>> {
    seq!["image_url"@, "video_url"@, "audio_url"@, "source"@]
}

/// The address of the media that the member `key` of a part refers to: the
/// member itself, or its member `url`.
pub open spec fn media_url(part: Seq<char>, key: Seq<char>) -> Option<Seq<char>> {
    let bytes = encode_utf8(part);
    match str_in(bytes, key) {
        Some(url) => Some(url),
        None => match text_in(bytes, key) {
            Some(inner) => str_in(encode_utf8(inner), "url"@),
            None => None,
        },
    }
}

/// Whether a part of a message refers to remote media itself.
pub open spec fn remote_itself(part: Seq<char>) -> bool {
    exists|i: int|
        0 <= i < media_members().len() && #[trigger] remote_member(part, media_members()[i])
}

/// How many parts may lie within each other. No JSON text that can be read nests
/// values deeper than this.
pub const MAX_NESTING: usize = 128;

/// Whether a part of a message refers to remote media, itself or in one of the
/// parts that its own content holds, up to `depth` of them within each other:
/// what a tool returned is a part that holds parts.
pub open spec fn remote_part(part: Seq<char>, depth: nat) -> bool
    decreases depth, 0nat,
{
    remote_itself(part) || (depth > 0 && holds_remote(part, (depth - 1) as nat))
}

/// Whether one of the parts that the content of a message, or of a part, holds
/// refers to remote media.
pub open spec fn holds_remote(holder: Seq<char>, depth: nat) -> bool
    decreases depth, 1nat,
{
    exists|i: int| 0 <= i < parts_of(holder).len() && remote_part(#[trigger] parts_of(holder)[i], depth)
}

/// The parts that the content of a message, or of a part, holds.
pub open spec fn parts_of(holder: Seq<char>) -> Seq<Seq<char>> {
    member_elements(encode_utf8(holder), "content"@)
}

pub open spec fn remote_member(part: Seq<char>, key: Seq<char>) -> bool {
    media_url(part, key) is Some && is_remote(media_url(part, key)->0)
}

/// The elements of an array in a member of an object.
pub open spec fn member_elements(body: Seq<u8>, key: Seq<char>) -> Seq<Seq<char>> {
    match text_in(body, key) {
        Some(text) => elements_in(encode_utf8(text)),
        None => Seq::empty(),
    }
}

/// Whether a message has a part that refers to remote media.
pub open spec fn remote_message(message: Seq<char>) -> bool {
    holds_remote(message, MAX_NESTING as nat)
}

/// Whether a request has a message that refers to remote media.
pub open spec fn remote_request(body: Seq<u8>) -> bool {
    let messages = member_elements(body, "messages"@);
    exists|i: int| 0 <= i < messages.len() && remote_message(#[trigger] messages[i])
}

fn refers_to_remote(part: &str, key: &str) -> (r: bool)
    ensures
        r == remote_member(part@, key@),
{
    let url = match string_member(part.as_bytes(), key) {
        Some(url) => Some(url),
        None => match member(part.as_bytes(), key) {
            Some(inner) => string_member(inner.as_str().as_bytes(), "url"),
            None => None,
        },
    };
    match url {
        Some(url) => is_remote_url(url.as_str()),
        None => false,
    }
}

/// Whether a replica would fetch this address from the internet.
pub fn is_remote_url(url: &str) -> (r: bool)
    ensures
        r == is_remote(url@),
{
    starts_with_in_either_case(url, "http://") || starts_with_in_either_case(url, "https://")
}

fn is_remote_itself(part: &str) -> (r: bool)
    ensures
        r == remote_itself(part@),
{
    let found = refers_to_remote(part, "image_url") || refers_to_remote(part, "video_url") || refers_to_remote(
        part,
        "audio_url",
    ) || refers_to_remote(part, "source");
    proof {
        let m = media_members();
        assert(m[0] == "image_url"@ && m[1] == "video_url"@ && m[2] == "audio_url"@ && m[3] == "source"@);
        if found {
            assert(remote_member(part@, m[0]) || remote_member(part@, m[1]) || remote_member(part@, m[2])
                || remote_member(part@, m[3]));
        }
    }
    found
}

fn list(body: &[u8], key: &str) -> (r: Vec<String>)
    ensures
        string_views(r@) == member_elements(body@, key@),
{
    if let Some(text) = member(body, key) {
        if let Some(items) = elements(text.as_str().as_bytes()) {
            assert(string_views(items@) =~= elements_in(encode_utf8(text@)));
            return items;
        }
    }
    let none: Vec<String> = Vec::new();
    assert(string_views(none@) =~= Seq::empty());
    none
}

/// Whether one of the parts that a message, or a part, holds refers to remote
/// media.
fn holds_remote_part(holder: &str, depth: usize) -> (r: bool)
    ensures
        r == holds_remote(holder@, depth as nat),
    decreases depth,
{
    let parts = list(holder.as_bytes(), "content");
    let ghost views = parts_of(holder@);
    let mut i: usize = 0;
    while i < parts.len()
        invariant
            i <= parts@.len(),
            string_views(parts@) == views,
            views == parts_of(holder@),
            forall|j: int| 0 <= j < i ==> !remote_part(#[trigger] views[j], depth as nat),
        decreases parts.len() - i,
    {
        let part = parts[i].as_str();
        assert(views[i as int] == part@);
        if is_remote_itself(part) || (depth > 0 && holds_remote_part(part, depth - 1)) {
            assert(remote_part(views[i as int], depth as nat));
            return true;
        }
        i += 1;
    }
    false
}

/// Whether a request has a message that refers to remote media.
pub fn has_remote_media(body: &[u8]) -> (r: bool)
    ensures
        r == remote_request(body@),
{
    let messages = list(body, "messages");
    let ghost views = member_elements(body@, "messages"@);
    let mut i: usize = 0;
    while i < messages.len()
        invariant
            i <= messages@.len(),
            string_views(messages@) == views,
            views == member_elements(body@, "messages"@),
            forall|j: int| 0 <= j < i ==> !remote_message(#[trigger] views[j]),
        decreases messages.len() - i,
    {
        assert(views[i as int] == messages@[i as int]@);
        if holds_remote_part(messages[i].as_str(), MAX_NESTING) {
            return true;
        }
        i += 1;
    }
    false
}

/// The status to refuse a request with, if the policy asks for that: 200 lets
/// remote media pass, any other status refuses them. Only messages can refer to
/// media.
pub fn media_refusal(config: &ProxyConfig, path: &str, body: &[u8]) -> (r: Option<u16>)
    ensures
        r == if config.remote_media_url_policy != 200 && (is_chat(path@) || is_messages(path@)) && remote_request(
            body@,
        ) {
            Some(config.remote_media_url_policy)
        } else {
            None
        },
{
    let has_messages = same_text(path, "/v1/chat/completions") || same_text(path, "/v1/messages");
    if config.remote_media_url_policy != 200 && has_messages && has_remote_media(body) {
        Some(config.remote_media_url_policy)
    } else {
        None
    }
}

/// The text that a request is routed by, endpoint by endpoint: the messages of a
/// chat; the prompt of a completion; the tools, the system prompt and the
/// messages where they are members of their own. A member that is missing adds
/// nothing. No other path has a text, and neither has a body that is no JSON
/// text.
pub proof fn lemma_extracted(body: &[u8], path: &str, r: String)
    requires
        call_ensures(extract_request_text, (body, path), r),
    ensures
        !is_json(body@) ==> r@.len() == 0,
        is_json(body@) && path@ == "/v1/chat/completions"@ ==> r@ == text_or_nothing(
            member_text(body@, "messages"@),
        ),
        is_json(body@) && path@ == "/v1/completions"@ ==> r@ == text_or_nothing(member_str(body@, "prompt"@)),
        is_json(body@) && path@ == "/v1/messages"@ ==> r@ == text_or_nothing(member_text(body@, "tools"@))
            + text_or_nothing(member_text(body@, "system"@)) + text_or_nothing(member_text(body@, "messages"@)),
        path@ != "/v1/chat/completions"@ && path@ != "/v1/completions"@ && path@ != "/v1/messages"@ ==> r@.len() == 0,
{
    if is_json(body@) {
        lemma_request_keys(body@);
    }
}

/// A text that may be missing.
pub open spec fn text_or_nothing(s: Option<Seq<char>>) -> Seq<char> {
    if s is Some {
        s->0
    } else {
        seq![]
    }
}

/// What is asked of a body, endpoint by endpoint.
pub proof fn lemma_key_sources(path: &str, r: KeySource)
    requires
        call_ensures(key_source, (path,), r),
    ensures
        path@ == "/v1/chat/completions"@ ==> (r matches KeySource::Members(keys) && keys@.len() == 1 && keys@[0]@
            == "messages"@),
        path@ == "/v1/messages"@ ==> (r matches KeySource::Members(keys) && keys@.len() == 3 && keys@[0]@ == "tools"@
            && keys@[1]@ == "system"@ && keys@[2]@ == "messages"@),
        path@ == "/v1/completions"@ ==> (r matches KeySource::Text(key) && key@ == "prompt"@),
        r is Nothing <==> path@ != "/v1/chat/completions"@ && path@ != "/v1/completions"@ && path@
            != "/v1/messages"@,
{
    reveal_strlit("/v1/chat/completions");
    reveal_strlit("/v1/completions");
    reveal_strlit("/v1/messages");
    assert("/v1/chat/completions"@.len() == 20);
    assert("/v1/completions"@.len() == 15);
    assert("/v1/messages"@.len() == 12);
    if r is Members {
        let keys = r->Members_0@;
        let names = string_views(keys);
        assert(names == key_members(path@));
        assert(names.len() == keys.len());
        assert(forall|i: int| 0 <= i < keys.len() ==> names[i] == (#[trigger] keys[i])@);
    }
}

/// Joining keeps what is there and skips what is missing: one part more adds its
/// own text at the end.
pub proof fn lemma_parts_joined(
    parts: &Vec<Option<String>>,
    more: &Vec<Option<String>>,
    last: Option<String>,
    r: String,
    s: String,
)
    requires
        more@ == parts@.push(last),
        call_ensures(join_parts, (parts,), r),
        call_ensures(join_parts, (more,), s),
    ensures
        parts@.len() == 0 ==> r@.len() == 0,
        last is None ==> s@ == r@,
        last matches Some(text) ==> s@ == r@ + text@,
{
    assert(more@.drop_last() =~= parts@);
    assert(r@ + Seq::<char>::empty() =~= r@);
}

/// Whether a text begins with some letters, small or capital.
pub open spec fn in_letters(text: Seq<char>, small: Seq<char>) -> bool {
    &&& text.len() >= small.len()
    &&& forall|i: int|
        0 <= i < small.len() ==> (#[trigger] text[i]) == small[i] || (65 <= text[i] as int <= 90 && text[i] as int + 32
            == small[i] as int)
}

/// Whether an address is one of the web, whatever the case of its scheme.
pub open spec fn on_the_web(url: Seq<char>) -> bool {
    ||| in_letters(url, seq!['h', 't', 't', 'p', ':', '/', '/'])
    ||| in_letters(url, seq!['h', 't', 't', 'p', 's', ':', '/', '/'])
}

proof fn lemma_on_the_web(url: Seq<char>)
    ensures
        is_remote(url) <==> on_the_web(url),
{
    reveal_strlit("http://");
    reveal_strlit("https://");
    assert("http://"@ =~= seq!['h', 't', 't', 'p', ':', '/', '/']);
    assert("https://"@ =~= seq!['h', 't', 't', 'p', 's', ':', '/', '/']);
}

/// An address is remote exactly if it begins like one of the web.
pub proof fn lemma_remote_address(url: &str, r: bool)
    requires
        call_ensures(is_remote_url, (url,), r),
    ensures
        r <==> on_the_web(url@),
{
    lemma_on_the_web(url@);
}

/// Whether the array in the member `key` of a JSON text has this element.
pub open spec fn lists(body: Seq<u8>, key: Seq<char>, element: Seq<char>) -> bool {
    &&& is_json(body)
    &&& member_text(body, key) matches Some(array) && is_json(encode_utf8(array)) && element_texts(
        encode_utf8(array),
    ).contains(element)
}

/// Whether a part has, in the member `key`, an address of the web: there, or in
/// the member `url` of the object there.
pub open spec fn points_out(part: Seq<char>, key: Seq<char>) -> bool {
    let bytes = encode_utf8(part);
    &&& is_json(bytes)
    &&& match member_str(bytes, key) {
        Some(url) => on_the_web(url),
        None => match member_text(bytes, key) {
            Some(inner) => is_json(encode_utf8(inner)) && (member_str(encode_utf8(inner), "url"@) matches Some(url)
                && on_the_web(url)),
            None => false,
        },
    }
}

/// Whether a part refers to media on the web.
pub open spec fn fetches(part: Seq<char>) -> bool {
    ||| points_out(part, "image_url"@)
    ||| points_out(part, "video_url"@)
    ||| points_out(part, "audio_url"@)
    ||| points_out(part, "source"@)
}

/// Whether each of these lies in the content of the one before it, and the last
/// refers to media on the web.
pub open spec fn leads_out(chain: Seq<Seq<char>>) -> bool {
    &&& chain.len() > 1
    &&& forall|i: int| 0 < i < chain.len() ==> lists(encode_utf8(chain[i - 1]), "content"@, #[trigger] chain[i])
    &&& fetches(chain.last())
}

proof fn lemma_fetches(part: Seq<char>)
    ensures
        remote_itself(part) <==> fetches(part),
{
    let m = media_members();
    assert(m[0] == "image_url"@ && m[1] == "video_url"@ && m[2] == "audio_url"@ && m[3] == "source"@);
    assert forall|key: Seq<char>| #[trigger] remote_member(part, key) == points_out(part, key) by {
        let bytes = encode_utf8(part);
        if media_url(part, key) is Some {
            lemma_on_the_web(media_url(part, key)->0);
        }
    }
    if fetches(part) {
        assert(remote_member(part, m[0]) || remote_member(part, m[1]) || remote_member(part, m[2]) || remote_member(
            part,
            m[3],
        ));
    }
    if remote_itself(part) {
        let i = choose|i: int| 0 <= i < m.len() && #[trigger] remote_member(part, m[i]);
        assert(i == 0 || i == 1 || i == 2 || i == 3);
    }
}

proof fn lemma_listed(holder: Seq<char>, part: Seq<char>)
    ensures
        parts_of(holder).contains(part) <==> lists(encode_utf8(holder), "content"@, part),
{
}

proof fn lemma_way_out(holder: Seq<char>, depth: nat) -> (chain: Seq<Seq<char>>)
    requires
        holds_remote(holder, depth),
    ensures
        leads_out(chain),
        chain[0] == holder,
        chain.len() <= depth + 2,
    decreases depth,
{
    let parts = parts_of(holder);
    let i = choose|i: int| 0 <= i < parts.len() && remote_part(#[trigger] parts[i], depth);
    let part = parts[i];
    assert(parts.contains(part));
    lemma_listed(holder, part);
    lemma_fetches(part);
    if remote_itself(part) {
        seq![holder, part]
    } else {
        let rest = lemma_way_out(part, (depth - 1) as nat);
        let chain = seq![holder] + rest;
        assert forall|k: int| 0 < k < chain.len() implies lists(
            encode_utf8(chain[k - 1]),
            "content"@,
            #[trigger] chain[k],
        ) by {
            if k == 1 {
                assert(chain[1] == part);
            } else {
                assert(chain[k] == rest[k - 1]);
                assert(chain[k - 1] == rest[k - 2]);
            }
        }
        assert(chain.last() == rest.last());
        chain
    }
}

proof fn lemma_way_in(chain: Seq<Seq<char>>, depth: nat)
    requires
        leads_out(chain),
        chain.len() <= depth + 2,
    ensures
        holds_remote(chain[0], depth),
    decreases depth,
{
    let part = chain[1];
    lemma_listed(chain[0], part);
    let parts = parts_of(chain[0]);
    assert(parts.contains(part));
    let i = choose|i: int| 0 <= i < parts.len() && parts[i] == part;
    lemma_fetches(part);
    if chain.len() == 2 {
        assert(remote_part(parts[i], depth));
    } else {
        let rest = chain.drop_first();
        assert forall|k: int| 0 < k < rest.len() implies lists(
            encode_utf8(rest[k - 1]),
            "content"@,
            #[trigger] rest[k],
        ) by {
            assert(rest[k] == chain[k + 1]);
            assert(rest[k - 1] == chain[k]);
        }
        lemma_way_in(rest, (depth - 1) as nat);
        assert(remote_part(parts[i], depth));
    }
}

proof fn lemma_remote_chain(body: Seq<u8>)
    ensures
        remote_request(body) <==> exists|chain: Seq<Seq<char>>| #[trigger]
            leads_out(chain) && chain.len() <= 130 && lists(body, "messages"@, chain[0]),
{
    let messages = member_elements(body, "messages"@);
    if remote_request(body) {
        let i = choose|i: int| 0 <= i < messages.len() && remote_message(#[trigger] messages[i]);
        let chain = lemma_way_out(messages[i], 128);
        assert(messages.contains(messages[i]));
        assert(leads_out(chain) && chain.len() <= 130 && lists(body, "messages"@, chain[0]));
    }
    if exists|chain: Seq<Seq<char>>| #[trigger]
        leads_out(chain) && chain.len() <= 130 && lists(body, "messages"@, chain[0]) {
        let chain = choose|chain: Seq<Seq<char>>| #[trigger]
            leads_out(chain) && chain.len() <= 130 && lists(body, "messages"@, chain[0]);
        lemma_way_in(chain, 128);
        assert(messages.contains(chain[0]));
        let i = choose|i: int| 0 <= i < messages.len() && messages[i] == chain[0];
        assert(remote_message(messages[i]));
    }
}

/// A request asks for remote media exactly if one of its messages leads to a
/// part that refers to the web: a part of its content, or one that lies in the
/// content of such a part, and so on, as deep as a JSON text can nest.
pub proof fn lemma_remote_found(body: &[u8], r: bool)
    requires
        call_ensures(has_remote_media, (body,), r),
    ensures
        r <==> exists|chain: Seq<Seq<char>>| #[trigger]
            leads_out(chain) && chain.len() <= 130 && lists(body@, "messages"@, chain[0]),
{
    lemma_remote_chain(body@);
}

/// A request for remote media is refused on the two endpoints that take
/// messages, with the status of the policy, unless that is 200. No other request
/// is refused.
pub proof fn lemma_refused_media(config: &ProxyConfig, path: &str, body: &[u8], r: Option<u16>, remote: bool)
    requires
        call_ensures(media_refusal, (config, path, body), r),
        call_ensures(has_remote_media, (body,), remote),
    ensures
        r matches Some(status) ==> status == config.remote_media_url_policy,
        r is Some <==> config.remote_media_url_policy != 200 && (path@ == "/v1/chat/completions"@ || path@
            == "/v1/messages"@) && remote,
{
}

} // verus!
