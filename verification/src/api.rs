//! The request and reply shapes of the service's edge, and the small
//! decisions made on them: bearer-token extraction, password checking, and
//! context-aware chat prompt construction. Transport, identity storage and
//! token cryptography live outside the library.

use vstd::prelude::*;
use crate::prompts::chat_prompt_plain;
use crate::prompts::chat_prompt_with_file;
use crate::prompts::chat_prompt_with_project;
use crate::text::starts_with_seq;
use crate::text::str_chars;
use crate::text::starts_with_chars;
use crate::text::chars_string;

verus! {

/// A registration request.
pub struct RegisterRequest {
    pub name: String,
    pub email: String,
    pub password: String,
}

/// A login request.
pub struct LoginRequest {
    pub email: String,
    pub password: String,
}

/// A successful login's reply: the bearer token.
pub struct LoginResponse {
    pub token: String,
}

/// The payload creating a user account.
pub struct CreateUser {
    pub email: String,
    pub password: String,
    pub full_name: String,
}

/// The payload of a login attempt.
pub struct LoginUser {
    pub email: String,
    pub password: String,
}

/// A chat request: the message, and the project and file in context, if
/// any.
pub struct ChatRequest {
    pub message: String,
    pub project_name: Option<String>,
    pub selected_file_name: Option<String>,
    pub selected_file_path: Option<String>,
}

/// A chat reply.
pub struct ChatResponse {
    pub response: String,
}

/// Whether a password is long enough to register with.
pub fn password_long_enough(password: &str) -> (r: bool)
    ensures
        r == (password@.len() >= 8),
{
    let chars = str_chars(password);
    chars.len() >= 8
}

/// The token carried by a bearer authorization header: what follows the
/// `Bearer ` prefix, exactly when the header has that prefix.
pub fn strip_bearer(header: &str) -> (r: Option<String>)
    ensures
        ({
            match r {
                Some(t) => starts_with_seq(header@, "Bearer "@) && t@ == header@.skip(7),
                None => !starts_with_seq(header@, "Bearer "@),
            }
        }),
{
    let chars = str_chars(header);
    let prefix = str_chars("Bearer ");
    proof {
        reveal_strlit("Bearer ");
    }
    if starts_with_chars(&chars, &prefix) {
        let mut rest: Vec<char> = Vec::new();
        let mut i: usize = 7;
        proof {
            assert(chars@.subrange(7, 7) =~= Seq::<char>::empty());
        }
        while i < chars.len()
            invariant
                chars@.len() >= 7,
                7 <= i <= chars@.len(),
                rest@ =~= chars@.subrange(7, i as int),
            decreases chars@.len() - i,
        {
            rest.push(chars[i]);
            assert(chars@.subrange(7, i + 1 as int) =~= chars@.subrange(7, i as int).push(
                chars@[i as int],
            ));
            i += 1;
        }
        proof {
            assert(chars@.subrange(7, chars@.len() as int) =~= chars@.skip(7));
        }
        Some(chars_string(&rest))
    } else {
        None
    }
}

/// What percent-decoding yields, as a function of the characters alone;
/// nothing when the decoded bytes are not valid text.
pub uninterp spec fn percent_decoded(s: Seq<char>) -> Option<Seq<char>>;

/// Relies on urlencoding::decode: percent-decoding depends on the
/// characters alone.
#[verifier::external_body]
fn decode_percent(s: &str) -> (r: Option<String>)
    ensures
        ({
            match r {
                Some(t) => percent_decoded(s@) == Some(t@),
                None => percent_decoded(s@) is None,
            }
        }),
{
    match urlencoding::decode(s) {
        Ok(c) => Some(c.into_owned()),
        Err(_) => None,
    }
}

/// Percent-decodes a request path, keeping it as sent when decoding fails.
pub fn decode_path(path: &str) -> (r: String)
    ensures
        ({
            match percent_decoded(path@) {
                Some(t) => r@ == t,
                None => r@ == path@,
            }
        }),
{
    match decode_percent(path) {
        Some(t) => t,
        None => {
            let mut r = String::new();
            r.append(path);
            r
        },
    }
}

/// `s` without its leading slashes.
pub open spec fn skip_slashes(s: Seq<char>) -> Seq<char>
    decreases s.len(),
{
    if s.len() > 0 && s[0] == '/' {
        skip_slashes(s.drop_first())
    } else {
        s
    }
}

/// The project named by a decoded request path, and the path inside it:
/// leading slashes dropped, the first segment the project, the rest
/// rejoined with `/`.
pub open spec fn request_parts(decoded: Seq<char>) -> (Seq<char>, Seq<char>) {
    let t = skip_slashes(decoded);
    let segs = crate::text::split_on(t, seq!['/']);
    (segs.first(), crate::text::join_on(segs.drop_first(), '/'))
}

/// Splits a decoded request path into the project name and the inner path.
pub fn parse_request_path(decoded: &str) -> (r: (String, String))
    ensures
        r.0@ == request_parts(decoded@).0,
        r.1@ == request_parts(decoded@).1,
{
    let chars = str_chars(decoded);
    let mut from: usize = 0;
    proof {
        assert(chars@.skip(0) =~= chars@);
    }
    while from < chars.len() && chars[from] == '/'
        invariant
            from <= chars@.len(),
            skip_slashes(chars@) == skip_slashes(chars@.skip(from as int)),
        decreases chars@.len() - from,
    {
        proof {
            let cur = chars@.skip(from as int);
            assert(cur[0] == chars@[from as int]);
            assert(cur.drop_first() =~= chars@.skip(from + 1));
        }
        from += 1;
    }
    let mut t: Vec<char> = Vec::new();
    let mut i: usize = from;
    while i < chars.len()
        invariant
            from <= i <= chars@.len(),
            t@ =~= chars@.subrange(from as int, i as int),
        decreases chars@.len() - i,
    {
        t.push(chars[i]);
        assert(chars@.subrange(from as int, i + 1 as int) =~= chars@.subrange(
            from as int,
            i as int,
        ).push(chars@[i as int]));
        i += 1;
    }
    proof {
        let cur = chars@.skip(from as int);
        if from < chars@.len() {
            assert(cur[0] == chars@[from as int]);
            assert(skip_slashes(cur) == cur);
        } else {
            assert(cur.len() == 0);
            assert(skip_slashes(cur) == cur);
        }
        assert(t@ =~= cur);
    }
    let mut seps: Vec<char> = Vec::new();
    seps.push('/');
    proof {
        assert(seps@ =~= seq!['/']);
    }
    let segs = crate::text::split_on_exec(&t, &seps);
    proof {
        crate::text::lemma_split_on_nonempty(t@, seq!['/']);
        assert(segs.deep_view()[0] =~= segs@[0]@);
    }
    let project = chars_string(&segs[0]);
    let mut restsegs: Vec<Vec<char>> = Vec::new();
    let mut k: usize = 1;
    proof {
        assert(restsegs.deep_view() =~= segs.deep_view().drop_first().subrange(0, 0));
    }
    while k < segs.len()
        invariant
            segs.deep_view().len() == segs@.len(),
            1 <= k <= segs@.len() || (segs@.len() == 0 && k == 1),
            segs@.len() >= 1,
            restsegs.deep_view() =~= segs.deep_view().drop_first().subrange(0, k - 1),
        decreases segs@.len() - k,
    {
        let mut seg: Vec<char> = Vec::new();
        crate::text::extend_chars(&mut seg, &segs[k]);
        let ghost old_deep = restsegs.deep_view();
        proof {
            assert(seg.deep_view() =~= seg@);
            assert(seg@ =~= segs.deep_view().drop_first()[k - 1]);
        }
        restsegs.push(seg);
        proof {
            assert(restsegs.deep_view() =~= old_deep.push(
                segs.deep_view().drop_first()[k - 1],
            ));
            assert(segs.deep_view().drop_first().subrange(0, k as int)
                =~= segs.deep_view().drop_first().subrange(0, k - 1).push(
                segs.deep_view().drop_first()[k - 1],
            ));
        }
        k += 1;
    }
    proof {
        assert(segs.deep_view().drop_first().subrange(
            0,
            segs.deep_view().drop_first().len() as int,
        ) =~= segs.deep_view().drop_first());
        assert(restsegs.deep_view() =~= segs.deep_view().drop_first());
    }
    let inner = chars_string(&crate::text::join_on_exec(&restsegs, '/'));
    (project, inner)
}

/// Builds the chat prompt for the request's context: file-specific when a
/// project, file name and file path are all present; project-wide when
/// only a project is named; plain otherwise.
pub fn build_chat_prompt(req: &ChatRequest) -> (r: String)
    ensures
        ({
            match (
                &req.project_name,
                &req.selected_file_name,
                &req.selected_file_path,
            ) {
                (Some(p), Some(n), Some(f)) => r@ == "Context: You are an AI assistant helping with the '"@
                    + p@ + "' project. The user is currently viewing the file '"@ + n@
                    + "' located at '"@ + f@ + "'.\n\nUser question: "@ + req.message@
                    + "\n\nPlease provide a helpful, detailed response about this specific file or the project in general. Focus on explaining the code, architecture, best practices, and any relevant insights. Be direct and factual without any thinking process."@,
                (Some(p), _, _) => r@ == "Context: You are an AI assistant helping with the '"@
                    + p@ + "' project.\n\nUser question: "@ + req.message@
                    + "\n\nPlease provide a helpful, detailed response about this project. If the user is asking about project structure, explain the typical structure of such projects and suggest they select a specific file for more detailed analysis. If they're asking about code, suggest they click on a file to get specific information. Be direct and factual without any thinking process."@,
                (None, _, _) => r@ == "User question: "@ + req.message@
                    + "\n\nYou are an AI assistant for code analysis. Please provide a helpful response. If the user is asking about project structure, explain that you need more context and suggest they upload a project or select a specific file for detailed analysis. Be direct and factual without any thinking process."@,
            }
        }),
{
    match (&req.project_name, &req.selected_file_name, &req.selected_file_path) {
        (Some(p), Some(n), Some(f)) => chat_prompt_with_file(
            p.as_str(),
            n.as_str(),
            f.as_str(),
            req.message.as_str(),
        ),
        (Some(p), _, _) => chat_prompt_with_project(p.as_str(), req.message.as_str()),
        (None, _, _) => chat_prompt_plain(req.message.as_str()),
    }
}

} // verus!
