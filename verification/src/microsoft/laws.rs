//! What holds of the download service and of the catalog as a whole.

use crate::bytes;
use crate::error;
use crate::iso::names;
use crate::microsoft::api;
use crate::microsoft::api::{ApiQuery, ApiStage};
use crate::microsoft::cabinet;
use crate::microsoft::catalog;
use crate::microsoft::models as products;
use crate::models;
use crate::text;
use crate::tree;
use vstd::prelude::*;

verus! {

// ---------------------------------------------------------------------------
// The download service
// ---------------------------------------------------------------------------
/// Every question, for languages or for links, carries the identifier of the session under the key
/// `sessionID`, and under that key nothing else. It is the identifier that the two requests of the
/// check against robots announce, and an exchange does not change it.
pub proof fn law_session_everywhere(s: api::SessionView, stage: ApiStage, q: ApiQuery, k: int)
    ensures
        ({
            let id = s.session_id;
            let asked = api::request_for(s, ApiStage::Ask, q).query;
            let script = api::request_for(s, ApiStage::Script, q);
            &&& api::request_for(s, ApiStage::Tags, q).url
                == "https://vlscppe.microsoft.com/tags?org_id=y6jn8c31&session_id="@ + id
            &&& script.query.contains(("session_id"@, id))
            &&& asked.contains(("sessionID"@, id))
            &&& 0 <= k < asked.len() && asked[k].0 == "sessionID"@ ==> asked[k].1 == id
            &&& api::session_after(s, stage).session_id == id
        }),
{
    reveal_strlit("profile");
    reveal_strlit("productEditionId");
    reveal_strlit("SKU");
    reveal_strlit("friendlyFileName");
    reveal_strlit("Locale");
    reveal_strlit("sessionID");
    let asked = api::request_for(s, ApiStage::Ask, q).query;
    let script = api::request_for(s, ApiStage::Script, q).query;
    assert("sessionID"@.len() == 9);
    assert("profile"@.len() == 7);
    assert("productEditionId"@.len() == 16);
    assert("SKU"@.len() == 3);
    assert("friendlyFileName"@.len() == 16);
    assert("Locale"@.len() == 6);
    assert(asked.len() == 6);
    assert(asked[0].0 == "profile"@ && asked[1].0 == "productEditionId"@ && asked[2].0 == "SKU"@
        && asked[3].0 == "friendlyFileName"@ && asked[4].0 == "Locale"@);
    assert(asked[5] == ("sessionID"@, s.session_id));
    assert(script[2] == ("session_id"@, s.session_id));
}

/// The question for the languages of an edition: it names the edition, and no product.
pub proof fn law_question_for_languages(s: api::SessionView, q: ApiQuery)
    requires
        q is Languages,
    ensures
        ({
            let r = api::request_for(s, ApiStage::Ask, q);
            &&& r.url
                == "https://www.microsoft.com/software-download-connector/api/getskuinformationbyproductedition"@
            &&& r.query == seq![
                ("profile"@, "606624d44113"@),
                ("productEditionId"@, q->edition_id@),
                ("SKU"@, "undefined"@),
                ("friendlyFileName"@, "undefined"@),
                ("Locale"@, "en-US"@),
                ("sessionID"@, s.session_id),
            ]
            &&& r.referer is None
        }),
{
    reveal_strlit("https://www.microsoft.com/software-download-connector/api");
    reveal_strlit("/getskuinformationbyproductedition");
    reveal_strlit(
        "https://www.microsoft.com/software-download-connector/api/getskuinformationbyproductedition",
    );
    assert(api::request_for(s, ApiStage::Ask, q).url
        =~= "https://www.microsoft.com/software-download-connector/api/getskuinformationbyproductedition"@);
}

/// The question for the links of a product in a language: it names the product, and no edition, and
/// comes from the download page of the Windows version.
pub proof fn law_question_for_links(s: api::SessionView, q: ApiQuery)
    requires
        q is Links,
    ensures
        ({
            let r = api::request_for(s, ApiStage::Ask, q);
            &&& r.url
                == "https://www.microsoft.com/software-download-connector/api/GetProductDownloadLinksBySku"@
            &&& r.query == seq![
                ("profile"@, "606624d44113"@),
                ("productEditionId"@, "undefined"@),
                ("SKU"@, q->sku_id@),
                ("friendlyFileName"@, "undefined"@),
                ("Locale"@, "en-US"@),
                ("sessionID"@, s.session_id),
            ]
            &&& r.referer == Some("https://www.microsoft.com/software-download/"@ + q->segment@)
        }),
{
    reveal_strlit("https://www.microsoft.com/software-download-connector/api");
    reveal_strlit("/GetProductDownloadLinksBySku");
    reveal_strlit(
        "https://www.microsoft.com/software-download-connector/api/GetProductDownloadLinksBySku",
    );
    assert(api::request_for(s, ApiStage::Ask, q).url
        =~= "https://www.microsoft.com/software-download-connector/api/GetProductDownloadLinksBySku"@);
}

/// The requests of the check against robots ask at the addresses for it, whatever is to be asked
/// later; the last one is made at the address that was worked out, and asks nothing there.
pub proof fn law_check_requests(s: api::SessionView, stage: ApiStage, q: ApiQuery)
    ensures
        ({
            let r = api::request_for(s, stage, q);
            match stage {
                ApiStage::Tags => r.query.len() == 0 && r.referer is None,
                ApiStage::Script => {
                    &&& r.url == "https://ov-df.microsoft.com/mdt.js"@
                    &&& r.query == seq![
                        ("instanceId"@, "560dc9f3-1aa5-4a2f-b63c-9e18f8d0e175"@),
                        ("PageId"@, "si"@),
                        ("session_id"@, s.session_id),
                    ]
                    &&& r.referer is None
                },
                ApiStage::Reply(url) => r.url == url@ && r.query.len() == 0 && r.referer is None,
                ApiStage::Ask => true,
            }
        }),
{
}

/// The stages of an exchange follow one another: the session is announced, the script fetched and
/// answered, and then the question is asked, and can be asked again. Only the answer to the script
/// makes the session verified, and a verified session begins with the question.
pub proof fn law_stages(
    s: api::SessionView,
    stage: ApiStage,
    body: Seq<char>,
    now: nat,
    next: ApiStage,
)
    ensures
        s.verified <==> api::first_stage(s) is Ask,
        !s.verified <==> api::first_stage(s) is Tags,
        api::session_after(s, stage).verified <==> s.verified || stage is Reply,
        stage is Tags ==> (api::leads_to(stage, body, now, next) <==> next is Script),
        stage is Reply || stage is Ask ==> (api::leads_to(stage, body, now, next) <==> next is Ask),
        stage is Script && api::leads_to(stage, body, now, next) ==> next is Reply && api::reply_url(
            body,
            now,
        ) == Some(next->Reply_0@),
        stage is Script && next is Reply && api::reply_url(body, now) == Some(next->Reply_0@)
            ==> api::leads_to(stage, body, now, next),
{
}

/// The answer to the check against robots: the address in the script behind its first mark, up to
/// the next quote, with the time and with the digits behind the first place where the script counts.
pub proof fn law_script_reply(
    js: Seq<char>,
    now: nat,
    i: int,
    end: int,
    j: int,
    last: int,
)
    requires
        text::first_at(js, "url:\"https://ov-df.microsoft.com/"@, i),
        text::first_at(js, "rticks=\"+"@, j),
        i + 5 <= end < js.len(),
        js[end] == '"',
        forall|k: int| i + 5 <= k < end ==> #[trigger] js[k] != '"',
        j + 9 <= last <= js.len(),
        forall|k: int| j + 9 <= k < last ==> '0' <= #[trigger] js[k] <= '9',
        last == js.len() || !('0' <= js[last] <= '9'),
    ensures
        api::reply_url(js, now) == Some(
            js.subrange(i + 5, end) + "&mdt="@ + text::decimal(now) + "&rticks="@ + js.subrange(
                j + 9,
                last,
            ),
        ),
        text::begins_with(
            js.skip(i + 5),
            "https://ov-df.microsoft.com/"@,
        ),
{
    let mark = "url:\"https://ov-df.microsoft.com/"@;
    let ticks = "rticks=\"+"@;
    lemma_place(js, mark, i);
    lemma_place(js, ticks, j);
    let rest = js.skip(i + 5);
    assert(rest[end - i - 5] == '"');
    let a = js.subrange(i + 5, end);
    assert(rest =~= a.push('"') + js.skip(end + 1));
    assert(!a.contains('"'));
    text::law_parted(a, '"', js.skip(end + 1));
    lemma_leading_digits(js.skip(j + 9), last - j - 9);
    assert(js.skip(j + 9).take(last - j - 9) =~= js.subrange(j + 9, last));
    reveal_strlit("url:\"https://ov-df.microsoft.com/");
    reveal_strlit("https://ov-df.microsoft.com/");
    let host = "https://ov-df.microsoft.com/"@;
    assert(mark.skip(5) =~= host);
    assert(rest.subrange(0, host.len() as int) =~= host) by {
        assert forall|k: int| 0 <= k < host.len() implies rest.subrange(0, host.len() as int)[k]
            == host[k] by {
            assert(js.subrange(i, i + mark.len())[k + 5] == mark[k + 5]);
            assert(mark.skip(5)[k] == host[k]);
        }
    }
}

/// There is no answer to a script without the mark of an address, without a quote behind the
/// address, or without the place where it counts.
pub proof fn law_no_script_reply(js: Seq<char>, now: nat)
    ensures
        !text::has_text(js, "url:\"https://ov-df.microsoft.com/"@) || !text::has_text(
            js,
            "rticks=\"+"@,
        ) || !js.contains('"') ==> api::reply_url(js, now) is None,
{
    if let Some(i) = api::place_of(js, "url:\"https://ov-df.microsoft.com/"@) {
        let mark = "url:\"https://ov-df.microsoft.com/"@;
        lemma_first_place(js, mark);
        reveal_strlit("url:\"https://ov-df.microsoft.com/");
        assert(js.subrange(i, i + mark.len())[4] == mark[4]);
        assert(js[i + 4] == '"');
    }
}

proof fn lemma_place(s: Seq<char>, p: Seq<char>, i: int)
    requires
        text::first_at(s, p, i),
    ensures
        api::place_of(s, p) == Some(i),
{
    assert(text::has_text(s, p));
    let k = choose|k: int| text::first_at(s, p, k);
    if k < i {
        assert(!text::occurs_at(s, p, k));
    } else if i < k {
        assert(!text::occurs_at(s, p, i));
    }
}

proof fn lemma_first_place(s: Seq<char>, p: Seq<char>)
    requires
        text::has_text(s, p),
    ensures
        api::place_of(s, p) is Some,
        text::first_at(s, p, api::place_of(s, p)->0),
{
    let i = choose|i: int| text::occurs_at(s, p, i);
    lemma_some_first(s, p, i);
}

proof fn lemma_some_first(s: Seq<char>, p: Seq<char>, i: int)
    requires
        text::occurs_at(s, p, i),
    ensures
        exists|k: int| text::first_at(s, p, k),
    decreases i,
{
    if exists|j: int| 0 <= j < i && text::occurs_at(s, p, j) {
        let j = choose|j: int| 0 <= j < i && text::occurs_at(s, p, j);
        lemma_some_first(s, p, j);
    } else {
        assert(text::first_at(s, p, i));
    }
}

proof fn lemma_leading_digits(s: Seq<char>, n: int)
    requires
        0 <= n <= s.len(),
        forall|k: int| 0 <= k < n ==> '0' <= #[trigger] s[k] <= '9',
        n == s.len() || !('0' <= s[n] <= '9'),
    ensures
        api::leading_digits(s) == s.take(n),
    decreases n,
{
    if n > 0 {
        let t = s.skip(1);
        assert forall|k: int| 0 <= k < n - 1 implies '0' <= #[trigger] t[k] <= '9' by {
            assert(t[k] == s[k + 1]);
        }
        lemma_leading_digits(t, n - 1);
        assert(seq![s[0]] + t.take(n - 1) =~= s.take(n));
    } else {
        assert(s.take(0) =~= Seq::empty());
    }
}

/// The identifier of a new session is written as five groups of hexadecimal digits, in the order of
/// its bytes, with hyphens between them.
pub proof fn law_hyphenated(b: Seq<u8>)
    requires
        b.len() == 16,
    ensures
        ({
            let h = api::hyphenated(b);
            &&& h.len() == 36
            &&& h[8] == '-' && h[13] == '-' && h[18] == '-' && h[23] == '-'
            &&& h.subrange(0, 8) + h.subrange(9, 13) + h.subrange(14, 18) + h.subrange(19, 23)
                + h.subrange(24, 36) == text::hex(b)
        }),
{
    reveal_strlit("-");
    let h = api::hyphenated(b);
    assert(h.subrange(0, 8) =~= text::hex(b.subrange(0, 4)));
    assert(h.subrange(9, 13) =~= text::hex(b.subrange(4, 6)));
    assert(h.subrange(14, 18) =~= text::hex(b.subrange(6, 8)));
    assert(h.subrange(19, 23) =~= text::hex(b.subrange(8, 10)));
    assert(h.subrange(24, 36) =~= text::hex(b.subrange(10, 16)));
    let joined = h.subrange(0, 8) + h.subrange(9, 13) + h.subrange(14, 18) + h.subrange(19, 23)
        + h.subrange(24, 36);
    assert forall|i: int| 0 <= i < 32 implies joined[i] == text::hex(b)[i] by {}
    assert(joined =~= text::hex(b));
}

// ---------------------------------------------------------------------------
// Answers of the download service
// ---------------------------------------------------------------------------
/// An answer tells of errors if and only if its list of errors holds something, and then they are
/// told as they stand there.
pub proof fn law_told_errors(nodes: Seq<tree::TreeNodeView>, j: int, x: int)
    ensures
        tree::member(nodes, 0, "Errors"@) is None ==> api::told_errors(nodes) is None,
        tree::member(nodes, 0, "Errors"@) == Some(j) && 0 < x < nodes.len() && nodes[x].parent == j
            && nodes[x].key is None ==> api::told_errors(nodes) == Some(nodes[j].text),
        tree::member(nodes, 0, "Errors"@) == Some(j) && (forall|y: int|
            0 < y < nodes.len() ==> !((#[trigger] nodes[y]).parent == j && nodes[y].key is None))
            ==> api::told_errors(nodes) is None,
{
    tree::law_elements(nodes, 0, "Errors"@);
    let e = tree::elements(nodes, 0, "Errors"@);
    if tree::member(nodes, 0, "Errors"@) == Some(j) {
        if 0 < x < nodes.len() && nodes[x].parent == j && nodes[x].key is None {
            assert(e.contains(x));
        }
        if e.len() > 0 {
            assert(e.contains(e[0]));
        }
    }
}

/// The language that a value of an answer describes: its identifier is what stands under `Language`;
/// its name is what stands under `LocalizedLanguage`, or else the identifier; the product is what
/// stands under `Id`, without quotes; and the file the first of those listed under
/// `FriendlyFileNames`.
pub proof fn law_language_told(nodes: Seq<tree::TreeNodeView>, i: int)
    ensures
        ({
            let l = api::language_at(nodes, i);
            &&& match tree::member(nodes, i, "Language"@) {
                Some(j) => match nodes[j].string {
                    Some(t) => l.id == t,
                    None => l.id.len() == 0,
                },
                None => l.id.len() == 0,
            }
            &&& match tree::member(nodes, i, "LocalizedLanguage"@) {
                Some(j) => match nodes[j].string {
                    Some(t) => l.name == t,
                    None => l.name == l.id,
                },
                None => l.name == l.id,
            }
            &&& tree::member(nodes, i, "Id"@) matches Some(j) ==> l.sku_id == text::unquoted(
                nodes[j].text,
            )
            &&& tree::member(nodes, i, "FriendlyFileNames"@) is None ==> l.friendly_filename is None
            &&& tree::member(nodes, i, "FriendlyFileNames"@) matches Some(j) ==> forall|x: int|
                0 < x < nodes.len() && nodes[x].parent == j && nodes[x].key is None && (forall|y: int|
                    0 < y < x ==> !((#[trigger] nodes[y]).parent == j && nodes[y].key is None))
                    ==> l.friendly_filename == (#[trigger] nodes[x]).string
        }),
{
    let e = tree::elements(nodes, i, "FriendlyFileNames"@);
    let l = api::language_at(nodes, i);
    tree::law_elements(nodes, i, "FriendlyFileNames"@);
    if let Some(j) = tree::member(nodes, i, "FriendlyFileNames"@) {
        assert forall|x: int|
            0 < x < nodes.len() && nodes[x].parent == j && nodes[x].key is None && (forall|y: int|
                0 < y < x ==> !((#[trigger] nodes[y]).parent == j && nodes[y].key is None)) implies l.friendly_filename
            == (#[trigger] nodes[x]).string by {
            assert(e.contains(x));
            assert(e.contains(e[0]));
            let k = choose|k: int| 0 <= k < e.len() && e[k] == x;
            if k > 0 {
                assert(e[0] < e[k]);
            }
            assert(e[0] == x);
        }
    }
}

/// The links of an answer come from its values in their order, one from each that has an address,
/// which is the address of the link, and none from others.
pub proof fn law_links_told(
    nodes: Seq<tree::TreeNodeView>,
    a: Seq<int>,
    b: Seq<int>,
    x: int,
    j: int,
    uri: Seq<char>,
)
    ensures
        api::links_at(nodes, a + b) == api::links_at(nodes, a) + api::links_at(nodes, b),
        tree::member(nodes, x, "Uri"@) == Some(j) && nodes[j].string == Some(uri) && uri.len() > 0
            ==> {
            let l = api::links_at(nodes, seq![x]);
            &&& l.len() == 1
            &&& l[0].url == uri
            &&& l[0].filename == api::file_of_uri(uri)
            &&& l[0].size is None
            &&& l[0].sha1 is None
        },
        tree::member(nodes, x, "Uri"@) is None ==> api::links_at(nodes, seq![x]).len() == 0,
        tree::member(nodes, x, "Uri"@) == Some(j) && (nodes[j].string is None || nodes[j].string
            == Some(Seq::<char>::empty())) ==> api::links_at(nodes, seq![x]).len() == 0,
    decreases b.len(),
{
    assert(seq![x].drop_last() =~= Seq::<int>::empty());
    assert(api::links_at(nodes, seq![x].drop_last()) == Seq::<models::DownloadLinkView>::empty());
    if b.len() == 0 {
        assert(a + b =~= a);
        assert(api::links_at(nodes, a) + api::links_at(nodes, b) =~= api::links_at(nodes, a));
    } else {
        assert((a + b).drop_last() =~= a + b.drop_last());
        law_links_told(nodes, a, b.drop_last(), x, j, uri);
        assert(api::links_at(nodes, a + b) =~= api::links_at(nodes, a) + api::links_at(nodes, b));
    }
}

/// The name of a file is what stands between the last slash of its address and the question mark
/// behind that, where there is one.
pub proof fn law_file_of_uri(a: Seq<char>, name: Seq<char>, q: Seq<char>)
    requires
        !name.contains('/'),
        !name.contains('?'),
        !q.contains('/'),
    ensures
        api::file_of_uri(a.push('/') + name) == name,
        api::file_of_uri(a.push('/') + name.push('?') + q) == name,
{
    text::law_parted(a, '/', name);
    text::law_parted(name, '?', q);
    let tail = name.push('?') + q;
    assert(a.push('/') + name.push('?') + q =~= a.push('/') + tail);
    assert(!tail.contains('/')) by {
        if tail.contains('/') {
            let k = choose|k: int| 0 <= k < tail.len() && tail[k] == '/';
            if k < name.len() {
                assert(name.contains(name[k]));
            } else if k > name.len() {
                assert(q.contains(q[k - name.len() - 1]));
            }
        }
    }
    text::law_parted(a, '/', tail);
}

// ---------------------------------------------------------------------------
// The Windows versions on offer
// ---------------------------------------------------------------------------
/// The edition that is asked for by the key of a Windows version and an architecture: Windows 11
/// has one for ARM64 and one for all other architectures, Windows 10 one for all. No other key has
/// any.
pub proof fn law_editions(key: Seq<char>, arch: Seq<char>)
    ensures
        match products::product_for(key) {
            Some(p) => {
                let e = products::edition_for(p, arch);
                if key == "windows11"@ {
                    &&& p.name == "Windows 11"@
                    &&& p.segment == "windows11"@
                    &&& if text::same_ignoring_case("ARM64"@, arch) {
                        e.id == "3324"@ && e.name == "Windows 11 (ARM64)"@ && e.arch == "ARM64"@
                    } else {
                        e.id == "3321"@ && e.name == "Windows 11 (x64)"@ && e.arch == "x64"@
                    }
                } else {
                    &&& key == "windows10"@
                    &&& p.name == "Windows 10"@
                    &&& p.segment == "windows10ISO"@
                    &&& e.id == "2618"@ && e.name == "Windows 10 (x64)"@ && e.arch == "x64"@
                }
            },
            None => key != "windows11"@ && key != "windows10"@,
        },
{
    if let Some(p) = products::product_for(key) {
        if key == "windows11"@ {
            reveal_strlit("ARM64");
            reveal_strlit("x64");
            let wanted = text::same_ignoring_case("ARM64"@, arch);
            if wanted {
                assert(!text::same_ignoring_case("x64"@, arch));
                assert(products::is_edition_for(p, arch, 1));
            }
            if exists|i: int| products::is_edition_for(p, arch, i) {
                let i = choose|i: int| products::is_edition_for(p, arch, i);
                assert(p.editions[0].arch == "x64"@);
                assert(p.editions[1].arch == "ARM64"@);
                if wanted && i == 0 {
                    assert(false);
                }
                if !wanted && i == 1 {
                    assert(false);
                }
            }
        }
    }
}

// ---------------------------------------------------------------------------
// The catalog
// ---------------------------------------------------------------------------
/// There is a catalog for each of the Windows versions on offer, at an address of its own, and for
/// no other.
pub proof fn law_catalog_urls(version: Seq<char>)
    ensures
        products::product_for(version) is Some <==> catalog::url_for(version) is Some,
        version == "windows11"@ ==> catalog::url_for(version) == Some(
            "https://go.microsoft.com/fwlink/?LinkId=2156292"@,
        ),
        version == "windows10"@ ==> catalog::url_for(version) == Some(
            "https://go.microsoft.com/fwlink/?LinkId=841361"@,
        ),
        version != "windows11"@ && version != "windows10"@ ==> catalog::url_for(version) is None,
{
    reveal_strlit("windows11");
    reveal_strlit("windows10");
    assert("windows11"@[8] != "windows10"@[8]);
}

/// The file that is read from a cabinet is the first whose name holds `products` and ends with
/// `.xml`; where there is none, the first that ends with `.xml`.
pub proof fn law_chosen_name(lowered: Seq<Seq<char>>, i: int)
    requires
        0 <= i < lowered.len(),
        catalog::is_chosen_name(lowered, i),
    ensures
        text::finishes_with(lowered[i], ".xml"@),
        forall|k: int|
            0 <= k < lowered.len() && text::has_text(#[trigger] lowered[k], "products"@)
                && text::finishes_with(lowered[k], ".xml"@) ==> i <= k && text::has_text(
                lowered[i],
                "products"@,
            ),
        !text::has_text(lowered[i], "products"@) ==> forall|k: int|
            0 <= k < i ==> !text::finishes_with(#[trigger] lowered[k], ".xml"@),
{
    assert forall|k: int|
        0 <= k < lowered.len() && text::has_text(#[trigger] lowered[k], "products"@)
            && text::finishes_with(lowered[k], ".xml"@) implies i <= k && text::has_text(
        lowered[i],
        "products"@,
    ) by {
        assert(catalog::is_products_name(lowered[k]));
    }
    if !text::has_text(lowered[i], "products"@) {
        assert forall|k: int| 0 <= k < i implies !text::finishes_with(
            #[trigger] lowered[k],
            ".xml"@,
        ) by {
            assert(!catalog::is_xml_name(lowered[k]));
        }
    }
}

/// The text of a node's child: that of the first child with the tag, trimmed; nothing where there is
/// no such child, or it has no text.
pub proof fn law_child_text(nodes: Seq<catalog::XmlNodeView>, i: usize, tag: Seq<char>, j: int)
    ensures
        0 <= j < nodes.len() && nodes[j].parent == Some(i) && nodes[j].tag == tag && (forall|k: int|
            0 <= k < j ==> !((#[trigger] nodes[k]).parent == Some(i) && nodes[k].tag == tag))
            ==> catalog::child_text_of(nodes, i as int, tag) == match nodes[j].text {
            Some(t) => text::trimmed(t),
            None => Seq::empty(),
        },
        (forall|k: int|
            0 <= k < nodes.len() ==> !((#[trigger] nodes[k]).parent == Some(i) && nodes[k].tag == tag))
            ==> catalog::child_text_of(nodes, i as int, tag).len() == 0,
{
    if 0 <= j < nodes.len() && nodes[j].parent == Some(i) && nodes[j].tag == tag && (forall|k: int|
        0 <= k < j ==> !((#[trigger] nodes[k]).parent == Some(i) && nodes[k].tag == tag)) {
        assert(catalog::is_child(nodes, i as int, tag, j)) by {
            assert forall|k: int| 0 <= k < j implies !#[trigger] catalog::has_parent_and_tag(
                nodes,
                i as int,
                tag,
                k,
            ) by {
                assert(!(nodes[k].parent == Some(i) && nodes[k].tag == tag));
            }
        }
        let m = choose|m: int| catalog::is_child(nodes, i as int, tag, m);
        if m < j {
            assert(!catalog::has_parent_and_tag(nodes, i as int, tag, m));
        } else if j < m {
            assert(!catalog::has_parent_and_tag(nodes, i as int, tag, j));
        }
    }
    if forall|k: int|
        0 <= k < nodes.len() ==> !((#[trigger] nodes[k]).parent == Some(i) && nodes[k].tag == tag) {
        if exists|m: int| catalog::is_child(nodes, i as int, tag, m) {
            let m = choose|m: int| catalog::is_child(nodes, i as int, tag, m);
            assert(nodes[m].parent == Some(i));
        }
    }
}

/// What is told of a file stands under the tags for it. A size that is no number is taken for zero.
pub proof fn law_file_told(nodes: Seq<catalog::XmlNodeView>, i: int)
    ensures
        ({
            let f = catalog::file_at(nodes, i);
            &&& f.filename == catalog::child_text_of(nodes, i, "FileName"@)
            &&& f.language_code == catalog::child_text_of(nodes, i, "LanguageCode"@)
            &&& f.language == catalog::child_text_of(nodes, i, "Language"@)
            &&& f.architecture == catalog::child_text_of(nodes, i, "Architecture"@)
            &&& f.sha1 == catalog::child_text_of(nodes, i, "Sha1"@)
            &&& f.file_path == catalog::child_text_of(nodes, i, "FilePath"@)
            &&& match text::parsed_u64(catalog::child_text_of(nodes, i, "Size"@)) {
                Some(n) => f.size == n,
                None => f.size == 0,
            }
        }),
{
}

/// The files of a catalog are those of its `File` nodes that have a name, each once and in their
/// order.
pub proof fn law_files_listed(nodes: Seq<catalog::XmlNodeView>, n: nat)
    requires
        n <= nodes.len(),
    ensures
        ({
            let f = catalog::files_in(nodes, n);
            &&& forall|k: int|
                0 <= k < n && (#[trigger] nodes[k]).tag == "File"@ && catalog::child_text_of(
                    nodes,
                    k,
                    "FileName"@,
                ).len() > 0 ==> f.contains(catalog::file_at(nodes, k))
            &&& exists|at: Seq<int>|
                #![trigger at.len()]
                at.len() == f.len() && (forall|m: int|
                    0 <= m < at.len() ==> 0 <= #[trigger] at[m] < n && nodes[at[m]].tag == "File"@
                        && f[m] == catalog::file_at(nodes, at[m]) && f[m].filename.len() > 0) && (forall|
                    m: int,
                    o: int,
                |
                    0 <= m < o < at.len() ==> #[trigger] at[m] < #[trigger] at[o])
        }),
    decreases n,
{
    let f = catalog::files_in(nodes, n);
    if n == 0 {
        assert(Seq::<int>::empty().len() == f.len());
    } else {
        let b = catalog::files_in(nodes, (n - 1) as nat);
        law_files_listed(nodes, (n - 1) as nat);
        let at = choose|at: Seq<int>|
            #![trigger at.len()]
            at.len() == b.len() && (forall|m: int|
                0 <= m < at.len() ==> 0 <= #[trigger] at[m] < n - 1 && nodes[at[m]].tag == "File"@
                    && b[m] == catalog::file_at(nodes, at[m]) && b[m].filename.len() > 0) && (forall|
                m: int,
                o: int,
            |
                0 <= m < o < at.len() ==> #[trigger] at[m] < #[trigger] at[o]);
        let taken = nodes[n - 1].tag == "File"@ && catalog::child_text_of(
            nodes,
            n - 1,
            "FileName"@,
        ).len() > 0;
        if taken {
            let next = at.push(n - 1);
            assert(f == b.push(catalog::file_at(nodes, n - 1)));
            assert(next.len() == f.len());
            assert forall|m: int| 0 <= m < next.len() implies 0 <= #[trigger] next[m] < n
                && nodes[next[m]].tag == "File"@ && f[m] == catalog::file_at(nodes, next[m])
                && f[m].filename.len() > 0 by {
                if m < at.len() {
                    assert(at[m] == next[m]);
                }
            }
            assert forall|m: int, o: int| 0 <= m < o < next.len() implies #[trigger] next[m]
                < #[trigger] next[o] by {
                assert(at[m] == next[m]);
                if o < at.len() {
                    assert(at[o] == next[o]);
                }
            }
            assert(f[b.len() as int] == catalog::file_at(nodes, n - 1));
        } else {
            assert(at.len() == f.len());
        }
        assert forall|k: int|
            0 <= k < n && (#[trigger] nodes[k]).tag == "File"@ && catalog::child_text_of(
                nodes,
                k,
                "FileName"@,
            ).len() > 0 implies f.contains(catalog::file_at(nodes, k)) by {
            if k < n - 1 {
                assert(b.contains(catalog::file_at(nodes, k)));
                let m = choose|m: int| 0 <= m < b.len() && b[m] == catalog::file_at(nodes, k);
                assert(f[m] == b[m]);
            }
        }
    }
}

/// A language that the catalog lists is told by the first file in it for the architecture: its code
/// serves as identifier and as product, and it goes by the name and the file that stand there. The
/// list goes by names, and by codes where names are the same.
pub proof fn law_catalog_languages(
    es: Seq<catalog::CatalogEntryView>,
    arch: Seq<char>,
    l: Seq<models::LanguageView>,
    a: int,
    b: int,
)
    requires
        catalog::are_languages(es, arch, l),
        es.len() <= usize::MAX,
        0 <= a < l.len(),
    ensures
        exists|i: int|
            {
                &&& 0 <= i < es.len()
                &&& l[a] == (models::LanguageView {
                    id: (#[trigger] es[i]).language_code,
                    name: es[i].language,
                    sku_id: es[i].language_code,
                    friendly_filename: Some(es[i].filename),
                })
                &&& text::same_ignoring_case(es[i].architecture, arch)
                &&& forall|j: int|
                    0 <= j < i ==> (#[trigger] es[j]).language_code != es[i].language_code
                        || !text::same_ignoring_case(es[j].architecture, arch)
            },
        a < b < l.len() && l[a].name == l[b].name ==> text::text_less(l[a].id, l[b].id),
{
    let s = choose|s: Seq<usize>|
        #[trigger] catalog::is_language_order(es, arch, s) && l == s.map_values(
            |i: usize| catalog::language_of(es[i as int]),
        );
    let i = s[a] as int;
    assert(s.contains(s[a]));
    assert(catalog::is_first_in_language(es, arch, i));
    assert forall|j: int| 0 <= j < i implies (#[trigger] es[j]).language_code != es[i].language_code
        || !text::same_ignoring_case(es[j].architecture, arch) by {
        if text::same_ignoring_case(es[j].architecture, arch) {
            assert(catalog::is_for_arch(es, arch, j));
        }
    }
    assert(es[i].language_code == l[a].id);
    if a < b < l.len() && l[a].name == l[b].name {
        catalog::law_codes_differ(es, arch, l, a, b);
        let j = s[b] as int;
        assert(catalog::named_before(es, i, j));
        text::lemma_less_irreflexive(es[i].language);
    }
}

/// What is read from a catalog's cabinet: the files that the XML file in it lists, where that can be
/// read; else what stood in the way, with the cause as it was given.
pub proof fn law_catalog_read(
    data: Seq<u8>,
    names: Seq<Seq<char>>,
    i: int,
    r: std::result::Result<Seq<catalog::CatalogEntryView>, error::ErrorView>,
)
    requires
        catalog::is_catalog_of(data, r),
        cabinet::cab_names(data) == Ok::<_, Seq<char>>(names),
        catalog::is_chosen_name(
            names.map_values(|s: Seq<char>| text::lowercase(s)),
            i,
        ),
    ensures
        0 <= i < names.len(),
        match cabinet::cab_text(data, names[i]) {
            cabinet::CabTextView::Closed(e) => r == Err::<Seq<catalog::CatalogEntryView>, _>(
                error::ErrorView::Cab("Failed to read "@ + names[i] + ": "@ + e),
            ),
            cabinet::CabTextView::Garbled(e) => r == Err::<Seq<catalog::CatalogEntryView>, _>(
                error::ErrorView::Cab("Failed to decode XML: "@ + e),
            ),
            cabinet::CabTextView::Text(xml) => match catalog::xml_tree(xml) {
                Ok(nodes) => r == Ok::<_, error::ErrorView>(
                    catalog::files_in(nodes, nodes.len()),
                ),
                Err(e) => r == Err::<Seq<catalog::CatalogEntryView>, _>(
                    error::ErrorView::Xml("Failed to parse products XML: "@ + e),
                ),
            },
        },
{
    let lowered = names.map_values(|s: Seq<char>| text::lowercase(s));
    assert(lowered =~= catalog::lowercase_all(names));
    let x = choose|x: std::result::Result<Seq<char>, error::ErrorView>|
        #[trigger] catalog::is_xml_of(data, names, x) && r == match x {
            Err(e) => Err(e),
            Ok(xml) => match catalog::xml_tree(xml) {
                Ok(nodes) => Ok(catalog::files_in(nodes, nodes.len())),
                Err(e) => Err(error::ErrorView::Xml("Failed to parse products XML: "@ + e)),
            },
        };
    let j = choose|j: int|
        #[trigger] catalog::is_chosen_name(lowered, j) && x == catalog::text_or_error(
            names[j],
            cabinet::cab_text(data, names[j]),
        );
    catalog::lemma_one_chosen(lowered, i, j);
}

/// What is told where no catalog is read at all: the cabinet cannot be opened, or it holds no XML
/// file.
pub proof fn law_no_catalog_read(
    data: Seq<u8>,
    r: std::result::Result<Seq<catalog::CatalogEntryView>, error::ErrorView>,
)
    requires
        catalog::is_catalog_of(data, r),
    ensures
        cabinet::cab_names(data) matches Err(e) ==> r == Err::<Seq<catalog::CatalogEntryView>, _>(
            error::ErrorView::Cab("Failed to open CAB: "@ + e),
        ),
        cabinet::cab_names(data) matches Ok(names) ==> (forall|k: int|
            0 <= k < names.len() ==> !text::finishes_with(
                text::lowercase(#[trigger] names[k]),
                ".xml"@,
            )) ==> r == Err::<Seq<catalog::CatalogEntryView>, _>(
            error::ErrorView::Cab("No XML file found in CAB archive"@),
        ),
{
    if let Ok(names) = cabinet::cab_names(data) {
        if forall|k: int|
            0 <= k < names.len() ==> !text::finishes_with(
                text::lowercase(#[trigger] names[k]),
                ".xml"@,
            ) {
            let lowered = catalog::lowercase_all(names);
            if exists|i: int| catalog::is_chosen_name(lowered, i) {
                let i = choose|i: int| catalog::is_chosen_name(lowered, i);
                assert(lowered[i] == text::lowercase(names[i]));
            }
        }
    }
}

/// What is told of an answer that cannot be used: that it tells of errors, which ones, that the
/// script cannot be read, or that it is no JSON.
pub proof fn law_failures(details: Seq<char>, len: nat)
    ensures
        api::api_error(details) == (error::ErrorView::Api {
            message: "API returned errors"@,
            details,
        }),
        api::script_error(len) == (error::ErrorView::Api {
            message: "Failed to parse anti-bot verification response"@,
            details: "Could not parse mdt.js (length="@ + text::decimal(len) + ")"@,
        }),
        api::not_json() == error::ErrorView::Http(
            error::HttpFailureView::Network("error decoding response body"@),
        ),
{
}

// ---------------------------------------------------------------------------
// Cabinets
// ---------------------------------------------------------------------------
/// A text in a cabinet ends with a zero, which is passed over with it; one of more than 255
/// characters is none.
pub proof fn law_text_in_cabinet(d: Seq<u8>, i: int, n: nat)
    requires
        0 <= i,
        i + n < d.len(),
        d[i + n] == 0,
        forall|k: int| i <= k < i + n ==> #[trigger] d[k] != 0,
    ensures
        n <= 255 ==> cabinet::behind_text(d, i, 255) == Some(i + n + 1),
        n > 255 ==> cabinet::behind_text(d, i, 255) is None,
{
    lemma_behind_text(d, i, n, 255);
}

proof fn lemma_behind_text(d: Seq<u8>, i: int, n: nat, most: nat)
    requires
        0 <= i,
        i + n < d.len(),
        d[i + n] == 0,
        forall|k: int| i <= k < i + n ==> #[trigger] d[k] != 0,
    ensures
        n <= most ==> cabinet::behind_text(d, i, most) == Some(i + n + 1),
        n > most ==> cabinet::behind_text(d, i, most) is None,
    decreases n,
{
    if n > 0 {
        assert(d[i] != 0);
        if most > 0 {
            lemma_behind_text(d, i + 1, (n - 1) as nat, (most - 1) as nat);
        }
    }
}

/// Where the folders of a cabinet are listed: behind its header, or, where it has space left for
/// applications, behind that; here for cabinets that are not one of several.
pub proof fn law_folders_at(d: Seq<u8>)
    requires
        d.len() >= 40,
    ensures
        bytes::number(d, 30, 2) == 0 ==> cabinet::folders_at(d) == Some(36int),
        bytes::number(d, 30, 2) == 4 ==> cabinet::folders_at(d) == Some(
            40int + bytes::number(d, 36, 2),
        ),
        bytes::number(d, 30, 2) == 0 ==> cabinet::folder_reserve(d) == 0 && cabinet::data_reserve(d)
            == 0,
        bytes::number(d, 30, 2) == 4 ==> cabinet::folder_reserve(d) == d[38]
            && cabinet::data_reserve(d) == d[39],
{
    bytes::law_fields_are_numbers(d, 30);
    bytes::law_fields_are_numbers(d, 36);
}

/// The file that is looked for is the first of its name; what is told of it is its size, where it
/// begins in its folder, and the folder.
pub proof fn law_find_file(d: Seq<u8>, i: int, n: nat, len: nat, name: Seq<char>)
    requires
        0 <= i,
        len <= 255,
        i + 16 + len < d.len(),
        d[i + 16 + len] == 0,
        forall|k: int| i + 16 <= k < i + 16 + len ==> #[trigger] d[k] != 0,
    ensures
        names::utf8_text(d.subrange(i + 16, i + 16 + len)) == name ==> cabinet::find_file(
            d,
            i,
            n + 1,
            name,
        ) == Some(
            (
                bytes::number(d, i, 4) as u32,
                bytes::number(d, i + 4, 4) as u32,
                bytes::number(d, i + 8, 2) as u16,
            ),
        ),
        names::utf8_text(d.subrange(i + 16, i + 16 + len)) != name ==> cabinet::find_file(
            d,
            i,
            n + 1,
            name,
        ) == cabinet::find_file(d, i + 17 + len, n, name),
        cabinet::find_file(d, i, 0, name) is None,
{
    law_text_in_cabinet(d, i + 16, len);
    bytes::law_fields_are_numbers(d, i);
    bytes::law_fields_are_numbers(d, i + 4);
    bytes::law_fields_are_numbers(d, i + 8);
}

/// Which files can be unpacked: one at the beginning of its folder can, if that is not packed with
/// LZX; one in such a folder cannot; and what is not there stands in no way.
pub proof fn law_can_be_unpacked(d: Seq<u8>, name: Seq<char>, at: int, size: u32, start: u32, folder: u16)
    requires
        cabinet::folders_at(d) == Some(at),
        0 <= at,
    ensures
        cabinet::find_file(
            d,
            bytes::number(d, 16, 4) as int,
            bytes::number(d, 28, 2),
            name,
        ) is None ==> cabinet::can_be_unpacked(d, name),
        cabinet::find_file(
            d,
            bytes::number(d, 16, 4) as int,
            bytes::number(d, 28, 2),
            name,
        ) == Some((size, start, folder)) ==> ({
            let i = at + folder * (8 + cabinet::folder_reserve(d));
            let there = folder < bytes::number(d, 26, 2) && i + 8 <= d.len();
            let kind = bytes::number(d, i + 6, 2) % 16;
            &&& !there ==> cabinet::can_be_unpacked(d, name)
            &&& there && kind == 3 ==> !cabinet::can_be_unpacked(d, name)
            &&& there && kind != 3 && start == 0 ==> cabinet::can_be_unpacked(d, name)
            &&& there && kind == 2 ==> cabinet::can_be_unpacked(d, name)
            &&& there && (kind == 0 || kind == 1) && start > 0 ==> cabinet::can_be_unpacked(d, name)
                == cabinet::leads_into_block(
                d,
                bytes::number(d, i, 4) as int,
                bytes::number(d, i + 4, 2),
                cabinet::data_reserve(d),
                start as int,
                kind == 0,
                size == 0,
            )
        }),
{
    bytes::law_fields_are_numbers(d, 16);
    bytes::law_fields_are_numbers(d, 26);
    bytes::law_fields_are_numbers(d, 28);
    let i = at + folder * (8 + cabinet::folder_reserve(d));
    bytes::law_fields_are_numbers(d, i);
    bytes::law_fields_are_numbers(d, i + 4);
    bytes::law_fields_are_numbers(d, i + 6);
}

/// The blocks of a folder are passed over, each with its header, up to the one that the file begins
/// in; a stored block must hold as much as it is told to unpack to, up to there.
pub proof fn law_blocks(
    d: Seq<u8>,
    i: int,
    n: nat,
    reserve: int,
    start: int,
    stored: bool,
    empty: bool,
)
    requires
        0 <= i,
        0 <= reserve,
        i + 8 + reserve + bytes::number(d, i + 4, 2) <= d.len(),
    ensures
        ({
            let packed = bytes::number(d, i + 4, 2);
            let unpacked = bytes::number(d, i + 6, 2);
            let here = cabinet::leads_into_block(d, i, n + 1, reserve, start, stored, empty);
            &&& start > unpacked ==> here == cabinet::leads_into_block(
                d,
                i + 8 + reserve + packed,
                n,
                reserve,
                start - unpacked,
                stored,
                empty,
            )
            &&& start <= unpacked && !stored ==> here
            &&& start <= unpacked && stored ==> here == (start <= packed || empty)
        }),
        !cabinet::leads_into_block(d, i, 0, reserve, start, stored, empty),
{
    bytes::law_fields_are_numbers(d, i + 4);
    bytes::law_fields_are_numbers(d, i + 6);
}

/// The link that a catalog gives for a language and an architecture, whose case does not matter, is
/// that of the first file in that language and for that architecture; there is none only where there
/// is no such file.
pub proof fn law_catalog_link(
    es: Seq<catalog::CatalogEntryView>,
    code: Seq<char>,
    arch: Seq<char>,
    r: Option<models::DownloadLinkView>,
    k: int,
)
    requires
        catalog::is_link_for(es, code, arch, r),
        0 <= k < es.len(),
        es[k].language_code == code,
        text::same_ignoring_case(es[k].architecture, arch),
        forall|j: int|
            0 <= j < k ==> (#[trigger] es[j]).language_code != code || !text::same_ignoring_case(
                es[j].architecture,
                arch,
            ),
    ensures
        r == Some(
            models::DownloadLinkView {
                url: es[k].file_path,
                filename: es[k].filename,
                size: Some(es[k].size),
                sha1: Some(es[k].sha1),
            },
        ),
{
    assert(catalog::is_wanted(es, code, arch, k));
    if let Some(l) = r {
        let i = choose|i: int|
            #[trigger] catalog::is_first_wanted(es, code, arch, i) && l == catalog::link_of(es[i]);
        if k < i {
            assert(!catalog::is_wanted(es, code, arch, k));
        } else if i < k {
            assert(es[i].language_code == code);
        }
    }
}

/// There is no link where no file is in the language and for the architecture.
pub proof fn law_no_catalog_link(
    es: Seq<catalog::CatalogEntryView>,
    code: Seq<char>,
    arch: Seq<char>,
    r: Option<models::DownloadLinkView>,
)
    requires
        catalog::is_link_for(es, code, arch, r),
        forall|j: int|
            0 <= j < es.len() ==> (#[trigger] es[j]).language_code != code
                || !text::same_ignoring_case(es[j].architecture, arch),
    ensures
        r is None,
{
    if let Some(l) = r {
        let i = choose|i: int|
            #[trigger] catalog::is_first_wanted(es, code, arch, i) && l == catalog::link_of(es[i]);
        assert(es[i].language_code == code);
    }
}

/// The folders of a cabinet that is one of several are listed behind the names of those before it,
/// or after it, or both.
pub proof fn law_folders_behind_names(d: Seq<u8>, a: int, b: int, e: int, f: int)
    requires
        d.len() >= 36,
        cabinet::behind_text(d, 36, 255) == Some(a),
        cabinet::behind_text(d, a, 255) == Some(b),
    ensures
        bytes::number(d, 30, 2) == 1 || bytes::number(d, 30, 2) == 2 ==> cabinet::folders_at(d)
            == Some(b),
        bytes::number(d, 30, 2) == 3 && cabinet::behind_text(d, b, 255) == Some(e)
            && cabinet::behind_text(d, e, 255) == Some(f) ==> cabinet::folders_at(d) == Some(f),
{
    bytes::law_fields_are_numbers(d, 30);
}

/// Contracts speak of the files of a catalog, and of requests, by all that they hold.
pub proof fn law_views(v: Seq<catalog::CatalogEntry>, r: api::ApiRequest, i: int)
    ensures
        catalog::catalog_views(v).len() == v.len(),
        0 <= i < v.len() ==> {
            let e = catalog::catalog_views(v)[i];
            &&& e.filename == v[i].filename@
            &&& e.language_code == v[i].language_code@
            &&& e.language == v[i].language@
            &&& e.architecture == v[i].architecture@
            &&& e.size == v[i].size
            &&& e.sha1 == v[i].sha1@
            &&& e.file_path == v[i].file_path@
        },
        r@.url == r.url@,
        r@.query.len() == r.query@.len(),
        0 <= i < r.query@.len() ==> r@.query[i] == (r.query@[i].0@, r.query@[i].1@),
        match r.referer {
            Some(s) => r@.referer == Some(s@),
            None => r@.referer is None,
        },
{
}

} // verus!
