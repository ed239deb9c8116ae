//! Settings and where their credential is kept.

use crate::text::{alnum, chars_of, is_alnum, push_char, push_str, str_eq};
use vstd::prelude::*;

verus! {

/// The translation settings.
pub struct Settings {
    pub api_key: String,
    pub has_api_key: bool,
    pub credential_backend: String,
    pub provider: String,
    pub base_url: String,
    pub model: String,
    pub style: String,
    pub batch_size: String,
    pub concurrency: String,
    pub glossary_enabled: bool,
    pub glossary_path: String,
    pub glossary_fingerprint: String,
}

impl Default for Settings {
    fn default() -> (s: Self)
        ensures
            s.api_key@ == Seq::<char>::empty(),
            !s.has_api_key,
            s.credential_backend@ == "系统凭证管理器"@,
            s.provider@ == "openai_compatible"@,
            s.base_url@ == "https://api.deepseek.com"@,
            s.model@ == "deepseek-chat"@,
            s.style@ == "自然玩家向简体中文汉化"@,
            s.batch_size@ == "auto"@,
            s.concurrency@ == "auto"@,
            !s.glossary_enabled,
            s.glossary_path@ == Seq::<char>::empty(),
            s.glossary_fingerprint@ == Seq::<char>::empty(),
    {
        Settings {
            api_key: String::new(),
            has_api_key: false,
            credential_backend: crate::text::owned("系统凭证管理器"),
            provider: default_provider(),
            base_url: crate::text::owned("https://api.deepseek.com"),
            model: crate::text::owned("deepseek-chat"),
            style: crate::text::owned("自然玩家向简体中文汉化"),
            batch_size: crate::text::owned("auto"),
            concurrency: crate::text::owned("auto"),
            glossary_enabled: false,
            glossary_path: String::new(),
            glossary_fingerprint: String::new(),
        }
    }
}

/// The provider of settings saved before there was a choice.
pub fn default_provider() -> (s: String)
    ensures
        s@ == "openai_compatible"@,
{
    crate::text::owned("openai_compatible")
}

/// The name under which the API key of `provider` is kept in the system's
/// credential store: the historical name for the OpenAI-compatible provider,
/// else the provider's letters, digits and underscores followed by `_api_key`.
pub open spec fn credential_account_spec(provider: Seq<char>) -> Seq<char> {
    if provider == "openai_compatible"@ {
        "deepseek_api_key"@
    } else {
        provider.filter(|c: char| is_alnum(c) || c == '_') + "_api_key"@
    }
}

/// The account of the credential of `provider`.
pub fn credential_account(provider: &str) -> (s: String)
    ensures
        s@ == credential_account_spec(provider@),
{
    if str_eq(provider, "openai_compatible") {
        return crate::text::owned("deepseek_api_key");
    }
    let v = chars_of(provider);
    let ghost pred = |c: char| is_alnum(c) || c == '_';
    let mut out = String::new();
    let mut i: usize = 0;
    assert(v@.take(0).filter(pred) =~= Seq::<char>::empty()) by {
        reveal(Seq::filter);
    }
    while i < v.len()
        invariant
            i <= v.len(),
            v@ == provider@,
            pred == (|c: char| is_alnum(c) || c == '_'),
            out@ == v@.take(i as int).filter(pred),
        decreases v.len() - i,
    {
        let c = v[i];
        let ghost t = v@.take(i + 1);
        proof {
            assert(t.drop_last() =~= v@.take(i as int));
            assert(t.last() == c);
            reveal(Seq::filter);
        }
        if alnum(c) || c == '_' {
            push_char(&mut out, c);
            assert(out@ == t.filter(pred));
        } else {
            assert(out@ == t.filter(pred));
        }
        i += 1;
    }
    assert(v@.take(v.len() as int) =~= v@);
    push_str(&mut out, "_api_key");
    out
}

} // verus!
