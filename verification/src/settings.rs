//! The user's preferences: `preferNpx`, set once the user picked "download",
//! and `customDshPath`, a dsh location that the user entered.
//!
//! They are best effort: a settings file that cannot be read reads as empty.

use vstd::prelude::*;

use crate::json::{Json, JsonView};
use crate::text::{cat3, chars_of, string_from, trim_chars};

verus! {

/// What a settings file holds; nothing where it is missing or no JSON.
pub open spec fn settings_view(text: Option<Seq<char>>) -> JsonView {
    match text {
        Some(t) => match crate::json::json_parse(t) {
            Some(j) => j,
            None => JsonView::Obj(Map::empty()),
        },
        None => JsonView::Obj(Map::empty()),
    }
}

/// Reads the settings file.
pub fn read_settings(text: &Option<String>) -> (out: Json)
    ensures
        out@ == settings_view(crate::text::opt_text(*text)),
        out@.nested(crate::json::max_depth()),
{
    match text {
        Some(t) => match Json::parse(t.as_str()) {
            Some(j) => j,
            None => Json::object(),
        },
        None => Json::object(),
    }
}

/// Whether the user has agreed to the npx download.
pub open spec fn prefers_npx(settings: JsonView) -> bool {
    match crate::json::get_truth(settings, "preferNpx"@) {
        Some(b) => b,
        None => false,
    }
}

/// Whether the user has agreed to the npx download.
pub fn prefer_npx(settings: &Json) -> (yes: bool)
    ensures
        yes == prefers_npx(settings@),
{
    match settings.get_bool("preferNpx") {
        Some(b) => b,
        None => false,
    }
}

/// The dsh location that the user entered.
pub open spec fn saved_path(settings: JsonView) -> Option<Seq<char>> {
    crate::json::get_text(settings, "customDshPath"@)
}

/// The dsh location that the user entered, where it still is a file: a stale
/// one reads as unset.
pub open spec fn custom_path(settings: JsonView, is_file: bool) -> Option<Seq<char>> {
    if is_file {
        saved_path(settings)
    } else {
        None
    }
}

/// The dsh location that the user entered, whether or not it still exists.
pub fn saved_dsh_path(settings: &Json) -> (out: Option<String>)
    ensures
        crate::text::opt_text(out) == saved_path(settings@),
{
    settings.get_str("customDshPath")
}

/// The dsh location that the user entered, given whether it is a file.
pub fn custom_dsh_path(settings: &Json, is_file: bool) -> (out: Option<String>)
    ensures
        crate::text::opt_text(out) == custom_path(settings@, is_file),
{
    if is_file {
        settings.get_str("customDshPath")
    } else {
        None
    }
}

/// Settings that can take a member: an object, or null, which counts as empty.
pub open spec fn settable(settings: JsonView) -> bool {
    settings is Obj || settings is Null
}

/// The settings with one member set.
pub open spec fn with_setting(settings: JsonView, key: Seq<char>, value: JsonView) -> JsonView {
    match settings {
        JsonView::Obj(m) => JsonView::Obj(m.insert(key, value)),
        _ => JsonView::Obj(Map::empty().insert(key, value)),
    }
}

/// Sets one member and writes the settings. A member with a plain value
/// neither deepens nor breaks what is there.
fn save_setting(text: &Option<String>, key: &str, value: Json) -> (out: Option<String>)
    requires
        value@ is Str || value@ is Bool,
    ensures
        out is None <==> !settable(settings_view(crate::text::opt_text(*text))),
        out matches Some(t) ==> ({
            let before = settings_view(crate::text::opt_text(*text));
            let after = with_setting(before, key@, value@);
            &&& t@ == crate::json::json_text(after)
            &&& after.alike(settings_view(Some(t@)), crate::json::max_depth())
            &&& before.integral(crate::json::max_depth()) ==> settings_view(Some(t@)) == after
        }),
{
    let mut settings = read_settings(text);
    let ghost before = settings@;
    match settings {
        Json::Obj(_) => {},
        Json::Null => {
            settings = Json::object();
        },
        _ => {
            return None;
        },
    }
    settings.set(key, value);
    let ghost after = with_setting(before, key@, value@);
    assert(settings@ == after);
    proof {
        let m = after->Obj_0;
        assert forall|k: Seq<char>| #[trigger] m.dom().contains(k) implies m[k].nested(
            (crate::json::max_depth() - 1) as nat,
        ) by {
            if k != key@ {
                assert(before->Obj_0.dom().contains(k));
            }
        }
        if before.integral(crate::json::max_depth()) {
            assert forall|k: Seq<char>| #[trigger] m.dom().contains(k) implies m[k].integral(
                (crate::json::max_depth() - 1) as nat,
            ) by {
                if k != key@ {
                    assert(before->Obj_0.dom().contains(k));
                }
            }
        }
    }
    proof {
        crate::json::lemma_nested_deeper(
            settings@,
            crate::json::max_depth(),
            crate::json::WRITE_DEPTH as nat,
        );
    }
    Some(settings.to_text())
}

/// Records whether the user has agreed to the npx download. From the text of
/// the settings file to its new text; `None` where the file holds a document
/// that cannot take a member, such as an array.
pub fn save_prefer_npx(text: &Option<String>, value: bool) -> (out: Option<String>)
    ensures
        out is None <==> !settable(settings_view(crate::text::opt_text(*text))),
        out matches Some(t) ==> ({
            let before = settings_view(crate::text::opt_text(*text));
            let after = with_setting(before, "preferNpx"@, JsonView::Bool(value));
            &&& t@ == crate::json::json_text(after)
            &&& after.alike(settings_view(Some(t@)), crate::json::max_depth())
            &&& before.integral(crate::json::max_depth()) ==> settings_view(Some(t@)) == after
        }),
{
    save_setting(text, "preferNpx", Json::Bool(value))
}

/// Records the dsh location that the user entered. From the text of the
/// settings file to its new text; `None` where the file holds a document that
/// cannot take a member.
pub fn save_custom_path(text: &Option<String>, path: &str) -> (out: Option<String>)
    ensures
        out is None <==> !settable(settings_view(crate::text::opt_text(*text))),
        out matches Some(t) ==> ({
            let before = settings_view(crate::text::opt_text(*text));
            let after = with_setting(before, "customDshPath"@, JsonView::Str(path@));
            &&& t@ == crate::json::json_text(after)
            &&& after.alike(settings_view(Some(t@)), crate::json::max_depth())
            &&& before.integral(crate::json::max_depth()) ==> settings_view(Some(t@)) == after
        }),
{
    save_setting(text, "customDshPath", Json::str(path))
}

/// What was saved is what is read: the recorded agreement is read back, and
/// the entered location is not touched by it. `back` is what the written text
/// reads as.
pub proof fn law_agreement_is_read_back(settings: JsonView, value: bool, back: JsonView)
    requires
        settable(settings),
        with_setting(settings, "preferNpx"@, JsonView::Bool(value)).alike(
            back,
            crate::json::max_depth(),
        ),
    ensures
        prefers_npx(back) == value,
        saved_path(back) == saved_path(settings),
{
    let after = with_setting(settings, "preferNpx"@, JsonView::Bool(value));
    lemma_keys_differ();
    lemma_member_is_alike(after, back, "preferNpx"@);
    lemma_member_is_alike(after, back, "customDshPath"@);
}

/// What was saved is what is read: the entered location is read back, and the
/// recorded agreement is not touched by it. `back` is what the written text
/// reads as.
pub proof fn law_location_is_read_back(settings: JsonView, path: Seq<char>, back: JsonView)
    requires
        settable(settings),
        with_setting(settings, "customDshPath"@, JsonView::Str(path)).alike(
            back,
            crate::json::max_depth(),
        ),
    ensures
        saved_path(back) == Some(path),
        prefers_npx(back) == prefers_npx(settings),
{
    let after = with_setting(settings, "customDshPath"@, JsonView::Str(path));
    lemma_keys_differ();
    lemma_member_is_alike(after, back, "preferNpx"@);
    lemma_member_is_alike(after, back, "customDshPath"@);
}

/// Saving one setting keeps the others: what is read back has the same keys
/// and the new one, and every other value without a fraction is the same.
/// `back` is what the written text reads as.
pub proof fn law_other_settings_are_kept(
    settings: JsonView,
    key: Seq<char>,
    value: JsonView,
    back: JsonView,
)
    requires
        settings is Obj,
        with_setting(settings, key, value).alike(back, crate::json::max_depth()),
    ensures
        back is Obj,
        back->Obj_0.dom() == settings->Obj_0.dom().insert(key),
        forall|k: Seq<char>| #[trigger]
            settings->Obj_0.dom().contains(k) && k != key && settings->Obj_0[k].integral(
                (crate::json::max_depth() - 1) as nat,
            ) ==> back->Obj_0[k] == settings->Obj_0[k],
{
    let after = with_setting(settings, key, value);
    let n = (crate::json::max_depth() - 1) as nat;
    assert forall|k: Seq<char>| #[trigger]
        settings->Obj_0.dom().contains(k) && k != key && settings->Obj_0[k].integral(
            n,
        ) implies back->Obj_0[k] == settings->Obj_0[k] by {
        lemma_member_is_alike(after, back, k);
        crate::json::lemma_alike_integral(after->Obj_0[k], back->Obj_0[k], n);
    }
}

/// The members of two objects that are alike are alike.
proof fn lemma_member_is_alike(a: JsonView, b: JsonView, k: Seq<char>)
    requires
        a is Obj,
        a.alike(b, crate::json::max_depth()),
    ensures
        b is Obj,
        a->Obj_0.dom().contains(k) <==> b->Obj_0.dom().contains(k),
        a->Obj_0.dom().contains(k) ==> a->Obj_0[k].alike(
            b->Obj_0[k],
            (crate::json::max_depth() - 1) as nat,
        ),
{
}

proof fn lemma_keys_differ()
    ensures
        "preferNpx"@ != "customDshPath"@,
{
    reveal_strlit("preferNpx");
    reveal_strlit("customDshPath");
    assert("preferNpx"@.len() != "customDshPath"@.len());
}

// ---------------------------------------------------------------------------
// An entered location
// ---------------------------------------------------------------------------

/// The first position at or after `i` that does not hold a quote.
pub open spec fn skip_quotes(s: Seq<char>, i: int) -> int
    decreases s.len() - i,
{
    if 0 <= i < s.len() && s[i] == '"' {
        skip_quotes(s, i + 1)
    } else {
        i
    }
}

/// The last position at or before `j`, but not before `low`, whose predecessor
/// is no quote.
pub open spec fn back_quotes(s: Seq<char>, low: int, j: int) -> int
    decreases j - low,
{
    if 0 <= low < j <= s.len() && s[j - 1] == '"' {
        back_quotes(s, low, j - 1)
    } else {
        j
    }
}

/// The text without the quotes around it.
pub open spec fn unquoted(s: Seq<char>) -> Seq<char> {
    let a = skip_quotes(s, 0);
    s.subrange(a, back_quotes(s, a, s.len() as int))
}

/// An entered path without surrounding whitespace and quotes.
pub fn clean_path(raw: &str) -> (out: String)
    ensures
        out@ == unquoted(crate::text::trim(raw@)),
{
    let s = trim_chars(&chars_of(raw));
    let mut a: usize = 0;
    while a < s.len() && s[a] == '"'
        invariant
            a <= s@.len(),
            skip_quotes(s@, a as int) == skip_quotes(s@, 0),
        decreases s@.len() - a,
    {
        a = a + 1;
    }
    let mut b: usize = s.len();
    while a < b && s[b - 1] == '"'
        invariant
            a <= b <= s@.len(),
            back_quotes(s@, a as int, b as int) == back_quotes(s@, a as int, s@.len() as int),
        decreases b,
    {
        b = b - 1;
    }
    string_from(&s, a, b)
}

/// Why an entered path is refused, if it is: it is empty, or no file.
pub open spec fn path_refusal(path: Seq<char>, is_file: bool) -> Option<Seq<char>> {
    if path.len() == 0 {
        Some("路径不能为空"@)
    } else if !is_file {
        Some("找不到文件:"@ + path + "(需要 dsh.cmd 或 dsh.exe 的完整路径)"@)
    } else {
        None
    }
}

/// Checks an entered path, given whether it is a file.
pub fn check_custom_path(path: &str, is_file: bool) -> (out: Result<(), String>)
    ensures
        match out {
            Ok(_) => path_refusal(path@, is_file) is None,
            Err(message) => path_refusal(path@, is_file) == Some(message@),
        },
{
    if path.is_empty() {
        return Err("路径不能为空".to_string());
    }
    if !is_file {
        return Err(cat3("找不到文件:", path, "(需要 dsh.cmd 或 dsh.exe 的完整路径)"));
    }
    Ok(())
}

/// An entered path loses the whitespace round it and the quotes round that,
/// however many, and nothing else.
pub proof fn law_an_entered_path_loses_quotes_and_whitespace(
    left: Seq<char>,
    m: nat,
    core: Seq<char>,
    n: nat,
    right: Seq<char>,
)
    requires
        forall|k: int| 0 <= k < left.len() ==> crate::text::is_white(#[trigger] left[k]),
        forall|k: int| 0 <= k < right.len() ==> crate::text::is_white(#[trigger] right[k]),
        core.len() > 0,
        core[0] != '"' && core.last() != '"',
        m == 0 ==> !crate::text::is_white(core[0]),
        n == 0 ==> !crate::text::is_white(core.last()),
    ensures
        unquoted(crate::text::trim(left + (quotes(m) + core + quotes(n)) + right)) == core,
        unquoted(crate::text::trim(left + quotes(m + n) + right)) == Seq::<char>::empty(),
{
    let inner = quotes(m) + core + quotes(n);
    crate::text::law_visible_characters_are_no_whitespace('"');
    assert(inner[0] == if m == 0 {
        core[0]
    } else {
        '"'
    });
    assert(inner.last() == if n == 0 {
        core.last()
    } else {
        '"'
    });
    crate::text::law_trimming_takes_off_the_whitespace(left, inner, right);
    let a = m as int;
    let b = m + core.len();
    assert forall|k: int| 0 <= k < a implies #[trigger] inner[k] == '"' by {}
    assert(inner[a] == core[0]);
    lemma_skip_quotes(inner, 0, a);
    assert forall|k: int| b <= k < inner.len() implies #[trigger] inner[k] == '"' by {}
    assert(inner[b - 1] == core.last());
    lemma_back_quotes(inner, a, inner.len() as int, b as int);
    assert(inner.subrange(a, b as int) =~= core);
    let all = quotes(m + n);
    crate::text::law_trimming_takes_off_the_whitespace(left, all, right);
    lemma_skip_quotes(all, 0, all.len() as int);
    assert(unquoted(all) =~= Seq::<char>::empty());
}

/// A run of quotes.
pub open spec fn quotes(n: nat) -> Seq<char> {
    Seq::new(n, |i: int| '"')
}

proof fn lemma_skip_quotes(s: Seq<char>, i: int, e: int)
    requires
        0 <= i <= e <= s.len(),
        forall|k: int| i <= k < e ==> #[trigger] s[k] == '"',
        e < s.len() ==> s[e] != '"',
    ensures
        skip_quotes(s, i) == e,
    decreases e - i,
{
    if i < e {
        assert(s[i] == '"');
        lemma_skip_quotes(s, i + 1, e);
    }
}

proof fn lemma_back_quotes(s: Seq<char>, low: int, j: int, e: int)
    requires
        0 <= low < e <= j <= s.len(),
        forall|k: int| e <= k < j ==> #[trigger] s[k] == '"',
        s[e - 1] != '"',
    ensures
        back_quotes(s, low, j) == e,
    decreases j - e,
{
    if e < j {
        assert(s[j - 1] == '"');
        lemma_back_quotes(s, low, j - 1, e);
    }
}

/// An entered path is refused exactly where it is empty or no file, and the
/// refusal of the latter names it. A saved one counts only while it is a file.
pub proof fn law_only_a_file_is_taken(path: Seq<char>, is_file: bool, settings: JsonView)
    ensures
        path_refusal(path, is_file) is None <==> path.len() > 0 && is_file,
        path.len() > 0 && !is_file ==> (path_refusal(path, is_file) matches Some(message)
            && crate::text::contains(message, path)),
        custom_path(settings, true) == saved_path(settings),
        custom_path(settings, false) is None,
{
    let message = "找不到文件:"@ + path + "(需要 dsh.cmd 或 dsh.exe 的完整路径)"@;
    crate::text::law_containing_is_being_cut_around(message, path);
}

/// The download counts as agreed to exactly where the settings say so with a
/// plain `true`, and a location is one exactly where it is a text.
pub proof fn law_only_a_plain_yes_is_consent(settings: Map<Seq<char>, JsonView>, path: Seq<char>)
    ensures
        prefers_npx(JsonView::Obj(settings)) <==> settings.dom().contains("preferNpx"@)
            && settings["preferNpx"@] == JsonView::Bool(true),
        saved_path(JsonView::Obj(settings)) == Some(path) <==> settings.dom().contains(
            "customDshPath"@,
        ) && settings["customDshPath"@] == JsonView::Str(path),
        !prefers_npx(settings_view(None)),
        saved_path(settings_view(None)) is None,
{
}

} // verus!
