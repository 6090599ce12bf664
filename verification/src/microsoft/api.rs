//! The download service: what is asked of it, and what its answers say.

use crate::disk::partition;
use crate::error;
use crate::error::{Error, HttpFailure, Result};
use crate::microsoft::json;
use crate::models;
use crate::models::{DownloadLink, Language};
use crate::text;
use crate::tree;
use crate::tree::TreeNode;
use vstd::prelude::*;
use vstd::string::*;

verus! {

// ---------------------------------------------------------------------------
// Sessions
// ---------------------------------------------------------------------------
/// An identifier in its usual form: lower-case hexadecimal digits in five groups.
pub open spec fn hyphenated(b: Seq<u8>) -> Seq<char> {
    text::hex(b.subrange(0, 4)) + "-"@ + text::hex(b.subrange(4, 6)) + "-"@ + text::hex(
        b.subrange(6, 8),
    ) + "-"@ + text::hex(b.subrange(8, 10)) + "-"@ + text::hex(b.subrange(10, 16))
}

/// The identifier in its usual form.
pub fn hyphenated_text(b: &[u8]) -> (r: String)
    requires
        b@.len() == 16,
    ensures
        r@ == hyphenated(b@),
{
    let one = text::hex_text(&b[0..4]);
    let two = text::hex_text(&b[4..6]);
    let three = text::hex_text(&b[6..8]);
    let four = text::hex_text(&b[8..10]);
    let five = text::hex_text(&b[10..16]);
    let mut r = one;
    r.append("-");
    r.append(two.as_str());
    r.append("-");
    r.append(three.as_str());
    r.append("-");
    r.append(four.as_str());
    r.append("-");
    r.append(five.as_str());
    r
}

/// A session with the download service.
#[derive(Debug)]
pub struct MicrosoftDownloadAPI {
    session_id: String,
    verified: bool,
}

/// A session with the download service.
pub struct SessionView {
    pub session_id: Seq<char>,
    /// The service has been convinced that no robot is asking.
    pub verified: bool,
}

impl View for MicrosoftDownloadAPI {
    type V = SessionView;

    closed spec fn view(&self) -> SessionView {
        SessionView { session_id: self.session_id@, verified: self.verified }
    }
}

/// A request to the service: an address, what is asked there, and the page that it comes from.
#[derive(Debug)]
pub struct ApiRequest {
    pub url: String,
    pub query: Vec<(String, String)>,
    pub referer: Option<String>,
}

/// A request to the service.
pub struct ApiRequestView {
    pub url: Seq<char>,
    pub query: Seq<(Seq<char>, Seq<char>)>,
    pub referer: Option<Seq<char>>,
}

/// The fields of a query.
pub open spec fn query_views(v: Seq<(String, String)>) -> Seq<(Seq<char>, Seq<char>)> {
    v.map_values(|x: (String, String)| (x.0@, x.1@))
}

impl View for ApiRequest {
    type V = ApiRequestView;

    open spec fn view(&self) -> ApiRequestView {
        ApiRequestView {
            url: self.url@,
            query: query_views(self.query@),
            referer: text::opt_text(self.referer),
        }
    }
}

/// What is asked for.
#[derive(Debug)]
pub enum ApiQuery {
    /// The languages of an edition.
    Languages { edition_id: String },
    /// The links for a language of a product.
    Links { sku_id: String, segment: String },
}

/// How far an exchange with the service has come. In each stage a request is due.
#[derive(Debug)]
pub enum ApiStage {
    /// The session is announced.
    Tags,
    /// The script of the check against robots is fetched.
    Script,
    /// The check is answered at this address.
    Reply(String),
    /// The question is asked.
    Ask,
}

pub open spec fn base_url() -> Seq<char> {
    "https://www.microsoft.com/software-download-connector/api"@
}

/// The fields that every question has.
pub open spec fn common_query(
    edition: Seq<char>,
    sku: Seq<char>,
    session: Seq<char>,
) -> Seq<(Seq<char>, Seq<char>)> {
    seq![
        ("profile"@, "606624d44113"@),
        ("productEditionId"@, edition),
        ("SKU"@, sku),
        ("friendlyFileName"@, "undefined"@),
        ("Locale"@, "en-US"@),
        ("sessionID"@, session),
    ]
}

/// The request that is due in a stage.
pub open spec fn request_for(s: SessionView, stage: ApiStage, q: ApiQuery) -> ApiRequestView {
    match stage {
        ApiStage::Tags => ApiRequestView {
            url: "https://vlscppe.microsoft.com/tags?org_id=y6jn8c31&session_id="@ + s.session_id,
            query: Seq::empty(),
            referer: None,
        },
        ApiStage::Script => ApiRequestView {
            url: "https://ov-df.microsoft.com/mdt.js"@,
            query: seq![
                ("instanceId"@, "560dc9f3-1aa5-4a2f-b63c-9e18f8d0e175"@),
                ("PageId"@, "si"@),
                ("session_id"@, s.session_id),
            ],
            referer: None,
        },
        ApiStage::Reply(url) => ApiRequestView { url: url@, query: Seq::empty(), referer: None },
        ApiStage::Ask => match q {
            ApiQuery::Languages { edition_id } => ApiRequestView {
                url: base_url() + "/getskuinformationbyproductedition"@,
                query: common_query(edition_id@, "undefined"@, s.session_id),
                referer: None,
            },
            ApiQuery::Links { sku_id, segment } => ApiRequestView {
                url: base_url() + "/GetProductDownloadLinksBySku"@,
                query: common_query("undefined"@, sku_id@, s.session_id),
                referer: Some("https://www.microsoft.com/software-download/"@ + segment@),
            },
        },
    }
}

// ---------------------------------------------------------------------------
// The check against robots
// ---------------------------------------------------------------------------
/// The first place of `p` in `s`.
pub open spec fn place_of(s: Seq<char>, p: Seq<char>) -> Option<int> {
    if text::has_text(s, p) {
        Some(choose|i: int| text::first_at(s, p, i))
    } else {
        None
    }
}

/// The digits with which `s` begins.
pub open spec fn leading_digits(s: Seq<char>) -> Seq<char>
    decreases s.len(),
{
    if s.len() > 0 && text::is_digit(s[0]) {
        seq![s[0]] + leading_digits(s.skip(1))
    } else {
        Seq::empty()
    }
}

/// The address that the script asks to be called: it follows the mark of an address on the
/// service's own host, up to the next quote.
pub open spec fn script_url(js: Seq<char>) -> Option<Seq<char>> {
    match place_of(js, "url:\"https://ov-df.microsoft.com/"@) {
        None => None,
        Some(i) => if js.skip(i + 5).contains('"') {
            Some(text::before_first(js.skip(i + 5), '"'))
        } else {
            None
        },
    }
}

/// The number that the script wants back.
pub open spec fn script_ticks(js: Seq<char>) -> Option<Seq<char>> {
    match place_of(js, "rticks=\"+"@) {
        None => None,
        Some(i) => Some(leading_digits(js.skip(i + 9))),
    }
}

/// The address at which the check is answered at the time `now`, in milliseconds.
pub open spec fn reply_url(js: Seq<char>, now: nat) -> Option<Seq<char>> {
    match (script_url(js), script_ticks(js)) {
        (Some(url), Some(ticks)) => Some(
            url + "&mdt="@ + text::decimal(now) + "&rticks="@ + ticks,
        ),
        _ => None,
    }
}

/// The error for a script that cannot be read, of `len` bytes.
pub open spec fn script_error(len: nat) -> error::ErrorView {
    error::ErrorView::Api {
        message: "Failed to parse anti-bot verification response"@,
        details: "Could not parse mdt.js (length="@ + text::decimal(len) + ")"@,
    }
}

/// The first place of `p` in `c`.
fn find_place(c: &Vec<char>, p: &str) -> (r: Option<usize>)
    ensures
        match r {
            Some(i) => place_of(c@, p@) == Some(i as int) && i + p@.len() <= c@.len(),
            None => place_of(c@, p@) is None,
        },
{
    let pat = text::chars_of(p);
    assert(c@.skip(0) =~= c@);
    match text::find_from(c, &pat, 0) {
        Some(i) => {
            proof {
                assert(text::first_at(c@, p@, i as int));
                assert(text::has_text(c@, p@));
                let k = choose|k: int| text::first_at(c@, p@, k);
                if k < i {
                    assert(!text::occurs_at(c@, p@, k));
                } else if i < k {
                    assert(!text::occurs_at(c@, p@, i as int));
                }
            }
            Some(i)
        },
        None => None,
    }
}

/// Reads the script, and gives the address at which the check is answered.
pub fn parse_script(js: &str, now_ms: u128) -> (r: Result<String>)
    ensures
        match reply_url(js@, now_ms as nat) {
            Some(u) => r is Ok && r->Ok_0@ == u,
            None => r is Err && r->Err_0@ == script_error(
                (js.spec_bytes().len() as usize) as nat,
            ),
        },
{
    let c = text::chars_of(js);
    let n: usize = c.len();
    proof {
        reveal_strlit("url:\"https://ov-df.microsoft.com/");
        reveal_strlit("rticks=\"+");
    }
    let at: usize = match find_place(&c, "url:\"https://ov-df.microsoft.com/") {
        Some(i) => i + 5,
        None => {
            return Err(unreadable_script(js));
        },
    };
    let rest = text::string_of(&c, at, n);
    assert(rest@ =~= js@.skip(at as int));
    if !has_char(rest.as_str(), '"') {
        return Err(unreadable_script(js));
    }
    let mut url = text::split_first(rest.as_str(), '"');
    let from: usize = match find_place(&c, "rticks=\"+") {
        Some(i) => i + 9,
        None => {
            return Err(unreadable_script(js));
        },
    };
    let ticks = take_digits(&c, from);
    let now = text::decimal_text(now_ms);
    url.append("&mdt=");
    url.append(now.as_str());
    url.append("&rticks=");
    url.append(ticks.as_str());
    Ok(url)
}

/// The error for a script that cannot be read.
fn unreadable_script(js: &str) -> (r: Error)
    ensures
        r@ == script_error((js.spec_bytes().len() as usize) as nat),
{
    let len: usize = js.len();
    let digits = text::decimal_text(len as u128);
    Error::Api {
        message: "Failed to parse anti-bot verification response".to_owned(),
        details: text::concat3("Could not parse mdt.js (length=", digits.as_str(), ")"),
    }
}

/// Whether the character is in the text.
fn has_char(s: &str, x: char) -> (r: bool)
    ensures
        r == s@.contains(x),
{
    let c = text::chars_of(s);
    let n: usize = c.len();
    let mut i: usize = 0;
    while i < n
        invariant
            i <= n,
            c@ == s@,
            n == c@.len(),
            forall|k: int| 0 <= k < i ==> c@[k] != x,
        decreases n - i,
    {
        if c[i] == x {
            assert(s@[i as int] == x);
            return true;
        }
        i += 1;
    }
    false
}

/// The digits from `from` on.
fn take_digits(c: &Vec<char>, from: usize) -> (r: String)
    requires
        from <= c@.len(),
    ensures
        r@ == leading_digits(c@.skip(from as int)),
{
    let n: usize = c.len();
    let mut r = String::new();
    let mut i: usize = from;
    let ghost goal = leading_digits(c@.skip(from as int));
    assert(r@ + goal =~= goal);
    while i < n && '0' <= c[i] && c[i] <= '9'
        invariant
            from <= i <= n,
            n == c@.len(),
            r@ + leading_digits(c@.skip(i as int)) == goal,
        decreases n - i,
    {
        let ghost before = r@;
        let ghost rest = c@.skip(i as int);
        assert(rest[0] == c@[i as int]);
        assert(rest.skip(1) =~= c@.skip(i + 1));
        r.push(c[i]);
        assert(r@ + leading_digits(rest.skip(1)) =~= before + leading_digits(rest));
        i += 1;
    }
    proof {
        let rest = c@.skip(i as int);
        if i < n {
            assert(rest[0] == c@[i as int]);
        }
        assert(leading_digits(rest) =~= Seq::empty());
        assert(r@ + leading_digits(rest) =~= r@);
    }
    r
}

// ---------------------------------------------------------------------------
// Exchanges
// ---------------------------------------------------------------------------
/// The fields that every question has.
fn common_fields(edition: &str, sku: &str, session: &str) -> (r: Vec<(String, String)>)
    ensures
        query_views(r@) == common_query(edition@, sku@, session@),
{
    let mut r: Vec<(String, String)> = Vec::new();
    r.push(("profile".to_owned(), "606624d44113".to_owned()));
    r.push(("productEditionId".to_owned(), edition.to_owned()));
    r.push(("SKU".to_owned(), sku.to_owned()));
    r.push(("friendlyFileName".to_owned(), "undefined".to_owned()));
    r.push(("Locale".to_owned(), "en-US".to_owned()));
    r.push(("sessionID".to_owned(), session.to_owned()));
    assert(query_views(r@) =~= common_query(edition@, sku@, session@));
    r
}

/// The stage with which an exchange begins.
pub open spec fn first_stage(s: SessionView) -> ApiStage {
    if s.verified {
        ApiStage::Ask
    } else {
        ApiStage::Tags
    }
}

/// The session after the request of a stage was answered.
pub open spec fn session_after(s: SessionView, stage: ApiStage) -> SessionView {
    SessionView { verified: s.verified || stage is Reply, ..s }
}

/// `next` is the stage after `stage`, whose request was answered with `body` at the time `now`.
pub open spec fn leads_to(stage: ApiStage, body: Seq<char>, now: nat, next: ApiStage) -> bool {
    match stage {
        ApiStage::Tags => next is Script,
        ApiStage::Script => match reply_url(body, now) {
            Some(u) => next is Reply && next->Reply_0@ == u,
            None => false,
        },
        ApiStage::Reply(_) => next is Ask,
        ApiStage::Ask => next is Ask,
    }
}

/// A question is asked only in a session that has been verified.
pub open spec fn may_stand(s: SessionView, stage: ApiStage) -> bool {
    stage is Ask ==> s.verified
}

/// Nothing is asked before the check against robots has been answered, and the check is made only
/// once in a session.
pub proof fn law_verified_before_asked(
    s: SessionView,
    stage: ApiStage,
    body: Seq<char>,
    now: nat,
    next: ApiStage,
)
    requires
        may_stand(s, stage),
        leads_to(stage, body, now, next),
    ensures
        may_stand(s, first_stage(s)),
        may_stand(session_after(s, stage), next),
        s.verified ==> session_after(s, stage) == s && first_stage(s) is Ask,
        next is Ask ==> first_stage(session_after(s, stage)) is Ask,
{
}

impl MicrosoftDownloadAPI {
    /// A new session, with a random identifier.
    pub fn new() -> (r: MicrosoftDownloadAPI)
        ensures
            !r@.verified,
            exists|b: Seq<u8>|
                #[trigger] partition::is_random_uuid(b) && r@.session_id == hyphenated(b),
    {
        let id = partition::random_uuid();
        MicrosoftDownloadAPI { session_id: hyphenated_text(&id), verified: false }
    }

    /// The session with this identifier.
    pub fn with_session(session_id: String) -> (r: MicrosoftDownloadAPI)
        ensures
            r@ == (SessionView { session_id: session_id@, verified: false }),
    {
        MicrosoftDownloadAPI { session_id, verified: false }
    }

    /// Whether the service has been convinced that no robot is asking.
    pub fn is_verified(&self) -> (r: bool)
        ensures
            r == self@.verified,
    {
        self.verified
    }

    /// The stage with which an exchange begins.
    pub fn begin(&self) -> (r: ApiStage)
        ensures
            r == first_stage(self@),
    {
        if self.verified {
            ApiStage::Ask
        } else {
            ApiStage::Tags
        }
    }

    /// The request that is due in a stage.
    pub fn request(&self, stage: &ApiStage, query: &ApiQuery) -> (r: ApiRequest)
        ensures
            r@ == request_for(self@, *stage, *query),
    {
        let none: Vec<(String, String)> = Vec::new();
        assert(query_views(none@) =~= Seq::empty());
        match stage {
            ApiStage::Tags => ApiRequest {
                url: text::concat(
                    "https://vlscppe.microsoft.com/tags?org_id=y6jn8c31&session_id=",
                    self.session_id.as_str(),
                ),
                query: none,
                referer: None,
            },
            ApiStage::Script => {
                let mut fields: Vec<(String, String)> = Vec::new();
                fields.push(
                    (
                        "instanceId".to_owned(),
                        "560dc9f3-1aa5-4a2f-b63c-9e18f8d0e175".to_owned(),
                    ),
                );
                fields.push(("PageId".to_owned(), "si".to_owned()));
                fields.push(("session_id".to_owned(), self.session_id.clone()));
                assert(query_views(fields@) =~= seq![
                    ("instanceId"@, "560dc9f3-1aa5-4a2f-b63c-9e18f8d0e175"@),
                    ("PageId"@, "si"@),
                    ("session_id"@, self@.session_id),
                ]);
                ApiRequest {
                    url: "https://ov-df.microsoft.com/mdt.js".to_owned(),
                    query: fields,
                    referer: None,
                }
            },
            ApiStage::Reply(url) => ApiRequest { url: url.clone(), query: none, referer: None },
            ApiStage::Ask => match query {
                ApiQuery::Languages { edition_id } => ApiRequest {
                    url: text::concat(
                        "https://www.microsoft.com/software-download-connector/api",
                        "/getskuinformationbyproductedition",
                    ),
                    query: common_fields(
                        edition_id.as_str(),
                        "undefined",
                        self.session_id.as_str(),
                    ),
                    referer: None,
                },
                ApiQuery::Links { sku_id, segment } => ApiRequest {
                    url: text::concat(
                        "https://www.microsoft.com/software-download-connector/api",
                        "/GetProductDownloadLinksBySku",
                    ),
                    query: common_fields("undefined", sku_id.as_str(), self.session_id.as_str()),
                    referer: Some(
                        text::concat(
                            "https://www.microsoft.com/software-download/",
                            segment.as_str(),
                        ),
                    ),
                },
            },
        }
    }

    /// Goes on after the request of a stage was answered with `body`, at the time `now_ms`. The
    /// last stage stays: its answer is the answer to the question.
    pub fn advance(&mut self, stage: ApiStage, body: &str, now_ms: u128) -> (r: Result<ApiStage>)
        ensures
            final(self)@ == session_after(old(self)@, stage),
            match r {
                Ok(next) => leads_to(stage, body@, now_ms as nat, next),
                Err(e) => {
                    &&& stage is Script
                    &&& reply_url(body@, now_ms as nat) is None
                    &&& e@ == script_error((body.spec_bytes().len() as usize) as nat)
                },
            },
    {
        match stage {
            ApiStage::Tags => Ok(ApiStage::Script),
            ApiStage::Script => match parse_script(body, now_ms) {
                Ok(url) => Ok(ApiStage::Reply(url)),
                Err(e) => Err(e),
            },
            ApiStage::Reply(_) => {
                self.verified = true;
                Ok(ApiStage::Ask)
            },
            ApiStage::Ask => Ok(ApiStage::Ask),
        }
    }
}

// ---------------------------------------------------------------------------
// Answers
// ---------------------------------------------------------------------------
/// The errors that an answer tells of, where it tells of any.
pub open spec fn told_errors(nodes: Seq<tree::TreeNodeView>) -> Option<Seq<char>> {
    if tree::elements(nodes, 0, "Errors"@).len() > 0 {
        Some(tree::text_in(nodes, 0, "Errors"@))
    } else {
        None
    }
}

/// The error for an answer that tells of errors.
pub open spec fn api_error(details: Seq<char>) -> error::ErrorView {
    error::ErrorView::Api { message: "API returned errors"@, details }
}

/// `a`, or `b` where there is none, or nothing.
pub open spec fn either(a: Option<Seq<char>>, b: Option<Seq<char>>) -> Seq<char> {
    match a {
        Some(s) => s,
        None => match b {
            Some(s) => s,
            None => Seq::empty(),
        },
    }
}

/// The language that value `i` of an answer describes.
pub open spec fn language_at(nodes: Seq<tree::TreeNodeView>, i: int) -> models::LanguageView {
    let files = tree::elements(nodes, i, "FriendlyFileNames"@);
    models::LanguageView {
        id: either(tree::string_in(nodes, i, "Language"@), None),
        name: either(
            tree::string_in(nodes, i, "LocalizedLanguage"@),
            tree::string_in(nodes, i, "Language"@),
        ),
        sku_id: text::unquoted(tree::text_in(nodes, i, "Id"@)),
        friendly_filename: if files.len() > 0 {
            nodes[files[0]].string
        } else {
            None
        },
    }
}

/// The name of the file at an address: what follows its last slash, up to a question mark.
pub open spec fn file_of_uri(uri: Seq<char>) -> Seq<char> {
    text::before_first(text::after_last(uri, '/'), '?')
}

/// The links that the values `at` of an answer give: one for each that has an address.
pub open spec fn links_at(nodes: Seq<tree::TreeNodeView>, at: Seq<int>) -> Seq<
    models::DownloadLinkView,
>
    decreases at.len(),
{
    if at.len() == 0 {
        Seq::empty()
    } else {
        let before = links_at(nodes, at.drop_last());
        let uri = either(tree::string_in(nodes, at.last(), "Uri"@), None);
        if uri.len() > 0 {
            before.push(
                models::DownloadLinkView {
                    url: uri,
                    filename: file_of_uri(uri),
                    size: None,
                    sha1: None,
                },
            )
        } else {
            before
        }
    }
}

/// The error for an answer that tells of errors, where it does.
fn check_errors(nodes: &Vec<TreeNode>) -> (r: Option<Error>)
    ensures
        match told_errors(tree::tree_views(nodes@)) {
            Some(d) => r is Some && r->0@ == api_error(d),
            None => r is None,
        },
{
    let found = tree::find_elements(nodes, 0, "Errors");
    assert(tree::places(found@).len() == found@.len());
    if found.len() > 0 {
        Some(
            Error::Api {
                message: "API returned errors".to_owned(),
                details: tree::find_text(nodes, 0, "Errors"),
            },
        )
    } else {
        None
    }
}

/// `a`, or nothing.
fn or_empty(a: Option<String>) -> (r: String)
    ensures
        r@ == either(text::opt_text(a), None),
{
    match a {
        Some(s) => s,
        None => String::new(),
    }
}

/// The languages that an answer lists.
pub fn parse_languages(nodes: &Vec<TreeNode>) -> (r: Result<Vec<Language>>)
    ensures
        ({
            let all = tree::tree_views(nodes@);
            match told_errors(all) {
                Some(d) => r is Err && r->Err_0@ == api_error(d),
                None => r is Ok && models::language_views(r->Ok_0@) == tree::elements(
                    all,
                    0,
                    "Skus"@,
                ).map_values(|i: int| language_at(all, i)),
            }
        }),
{
    if let Some(e) = check_errors(nodes) {
        return Err(e);
    }
    let ghost all = tree::tree_views(nodes@);
    let at = tree::find_elements(nodes, 0, "Skus");
    let n: usize = at.len();
    let ghost goal = tree::elements(all, 0, "Skus"@).map_values(|i: int| language_at(all, i));
    assert(goal.len() == n);
    let mut r: Vec<Language> = Vec::new();
    let mut k: usize = 0;
    while k < n
        invariant
            k <= n,
            n == at@.len(),
            all == tree::tree_views(nodes@),
            goal == tree::places(at@).map_values(|i: int| language_at(all, i)),
            r@.len() == k,
            forall|j: int| 0 <= j < k ==> (#[trigger] r@[j])@ == goal[j],
        decreases n - k,
    {
        let i: usize = at[k];
        assert(tree::places(at@)[k as int] == i);
        let id = or_empty(tree::find_string(nodes, i, "Language"));
        let name = match tree::find_string(nodes, i, "LocalizedLanguage") {
            Some(s) => s,
            None => or_empty(tree::find_string(nodes, i, "Language")),
        };
        let sku_text = tree::find_text(nodes, i, "Id");
        let files = tree::find_elements(nodes, i, "FriendlyFileNames");
        assert(tree::places(files@).len() == files@.len());
        let friendly_filename = if files.len() > 0 {
            let f: usize = files[0];
            assert(tree::places(files@)[0] == f);
            assert(all[f as int] == nodes@[f as int]@);
            text::clone_opt(&nodes[f].string)
        } else {
            None
        };
        r.push(
            Language { id, name, sku_id: text::trim_quotes(sku_text.as_str()), friendly_filename },
        );
        k += 1;
    }
    assert(models::language_views(r@) =~= goal);
    Ok(r)
}

/// The links that an answer lists.
pub fn parse_links(nodes: &Vec<TreeNode>) -> (r: Result<Vec<DownloadLink>>)
    ensures
        ({
            let all = tree::tree_views(nodes@);
            match told_errors(all) {
                Some(d) => r is Err && r->Err_0@ == api_error(d),
                None => r is Ok && models::link_views(r->Ok_0@) == links_at(
                    all,
                    tree::elements(all, 0, "ProductDownloadOptions"@),
                ),
            }
        }),
{
    if let Some(e) = check_errors(nodes) {
        return Err(e);
    }
    let ghost all = tree::tree_views(nodes@);
    let at = tree::find_elements(nodes, 0, "ProductDownloadOptions");
    let ghost ps = tree::places(at@);
    let n: usize = at.len();
    let mut r: Vec<DownloadLink> = Vec::new();
    let mut k: usize = 0;
    assert(ps.take(0) =~= Seq::empty());
    assert(models::link_views(r@) =~= Seq::empty());
    while k < n
        invariant
            k <= n,
            n == at@.len(),
            all == tree::tree_views(nodes@),
            ps == tree::places(at@),
            models::link_views(r@) == links_at(all, ps.take(k as int)),
        decreases n - k,
    {
        let i: usize = at[k];
        assert(ps[k as int] == i);
        assert(ps.take(k + 1).drop_last() =~= ps.take(k as int));
        assert(ps.take(k + 1).last() == i);
        let uri = or_empty(tree::find_string(nodes, i, "Uri"));
        if !uri.as_str().is_empty() {
            let tail = text::rsplit_last(uri.as_str(), '/');
            let filename = text::split_first(tail.as_str(), '?');
            let one = DownloadLink { url: uri, filename, size: None, sha1: None };
            let ghost before = models::link_views(r@);
            r.push(one);
            assert(models::link_views(r@) =~= before.push(one@));
        }
        k += 1;
    }
    assert(ps.take(n as int) =~= ps);
    Ok(r)
}

/// The error for an answer that is no JSON.
pub open spec fn not_json() -> error::ErrorView {
    error::ErrorView::Http(error::HttpFailureView::Network("error decoding response body"@))
}

impl MicrosoftDownloadAPI {
    /// The languages that the answer `data` lists.
    pub fn get_languages(data: &[u8]) -> (r: Result<Vec<Language>>)
        ensures
            match json::json_tree(data@) {
                Err(_) => r is Err && r->Err_0@ == not_json(),
                Ok(all) => match told_errors(all) {
                    Some(d) => r is Err && r->Err_0@ == api_error(d),
                    None => r is Ok && models::language_views(r->Ok_0@) == tree::elements(
                        all,
                        0,
                        "Skus"@,
                    ).map_values(|i: int| language_at(all, i)),
                },
            },
    {
        match json::read_json(data) {
            Err(_) => Err(
                Error::Http(HttpFailure::Network("error decoding response body".to_owned())),
            ),
            Ok(nodes) => parse_languages(&nodes),
        }
    }

    /// The links that the answer `data` lists.
    pub fn get_download_links(data: &[u8]) -> (r: Result<Vec<DownloadLink>>)
        ensures
            match json::json_tree(data@) {
                Err(_) => r is Err && r->Err_0@ == not_json(),
                Ok(all) => match told_errors(all) {
                    Some(d) => r is Err && r->Err_0@ == api_error(d),
                    None => r is Ok && models::link_views(r->Ok_0@) == links_at(
                        all,
                        tree::elements(all, 0, "ProductDownloadOptions"@),
                    ),
                },
            },
    {
        match json::read_json(data) {
            Err(_) => Err(
                Error::Http(HttpFailure::Network("error decoding response body".to_owned())),
            ),
            Ok(nodes) => parse_links(&nodes),
        }
    }
}

} // verus!
