//! Where the ledger lives. Only two keys belong to the local configuration
//! file, `supabase_url` and `supabase_publishable_key`, because they say
//! where the ledger is and must survive across sessions; every other
//! setting lives in the ledger's own `config` table.
//!
//! The environment wins over the file: `MONEY_TRACKER_SUPABASE_URL` and
//! `MONEY_TRACKER_SUPABASE_KEY` replace the stored values, and an empty
//! variable clears its field.
use vstd::prelude::*;

use crate::error::{AppError, Result};
use crate::models::clone_opt;
use crate::text::{concat, owned};

verus! {

/// The environment variable that overrides the stored remote URL.
pub const SUPABASE_URL_ENV: &'static str = "MONEY_TRACKER_SUPABASE_URL";

/// The environment variable that overrides the stored publishable key.
pub const SUPABASE_KEY_ENV: &'static str = "MONEY_TRACKER_SUPABASE_KEY";

/// The remote location of the ledger, when there is one.
#[derive(Debug)]
pub struct Settings {
    pub supabase_url: Option<String>,
    pub supabase_publishable_key: Option<String>,
}

impl Clone for Settings {
    fn clone(&self) -> (r: Settings)
        ensures
            r == *self,
    {
        Settings {
            supabase_url: clone_opt(&self.supabase_url),
            supabase_publishable_key: clone_opt(&self.supabase_publishable_key),
        }
    }
}

impl Default for Settings {
    fn default() -> (r: Settings)
        ensures
            r.supabase_url is None && r.supabase_publishable_key is None,
    {
        Settings { supabase_url: None, supabase_publishable_key: None }
    }
}

/// A stored field after an environment variable has had its say: an unset
/// variable keeps the field, an empty one clears it, any other value
/// replaces it.
pub open spec fn overridden(field: Option<String>, var: Option<String>) -> Option<String> {
    match var {
        None => field,
        Some(v) => if v@.len() == 0 {
            None
        } else {
            Some(v)
        },
    }
}

fn override_field(field: Option<String>, var: Option<String>) -> (r: Option<String>)
    ensures
        r == overridden(field, var),
{
    match var {
        None => field,
        Some(v) => if v.as_str().unicode_len() == 0 {
            None
        } else {
            Some(v)
        },
    }
}

impl Settings {
    /// The settings in effect: what the file held (`None` when it is
    /// missing or unreadable, which counts as empty), then the two
    /// environment variables applied on top.
    pub fn loaded(stored: Option<Settings>, url_var: Option<String>, key_var: Option<String>) -> (r:
        Settings)
        ensures
            r.supabase_url == overridden(
                match stored {
                    Some(s) => s.supabase_url,
                    None => None,
                },
                url_var,
            ),
            r.supabase_publishable_key == overridden(
                match stored {
                    Some(s) => s.supabase_publishable_key,
                    None => None,
                },
                key_var,
            ),
    {
        let base = match stored {
            Some(s) => s,
            None => Settings::default(),
        };
        Settings {
            supabase_url: override_field(base.supabase_url, url_var),
            supabase_publishable_key: override_field(base.supabase_publishable_key, key_var),
        }
    }

    /// Whether remote mode is configured (from the environment or the file).
    pub fn remote_configured(&self) -> (r: bool)
        ensures
            r == self.supabase_url is Some,
    {
        self.supabase_url.is_some()
    }

    /// Whether remote mode is configured and has a key to authenticate
    /// with. A URL without a publishable key is a configuration error, not
    /// a no-op.
    pub fn is_complete(&self) -> (r: bool)
        ensures
            r == (self.supabase_url is Some && self.supabase_publishable_key is Some),
    {
        self.supabase_url.is_some() && self.supabase_publishable_key.is_some()
    }

    /// The URL and key to reach the remote ledger with, or the
    /// configuration error naming the first one missing.
    pub fn credentials(&self) -> (r: Result<(String, String)>)
        ensures
            (self.supabase_url is Some && self.supabase_publishable_key is Some) <==> r is Ok,
            r matches Ok((u, k)) ==> Some(u) == self.supabase_url && Some(k)
                == self.supabase_publishable_key,
            self.supabase_url is None ==> (r matches Err(AppError::Config(m)) && m@
                == "Supabase URL no configurada"@),
            self.supabase_url is Some && self.supabase_publishable_key is None ==> (r matches Err(
                AppError::Config(m),
            ) && m@ == "Publishable key no configurada"@),
    {
        let url = match &self.supabase_url {
            Some(u) => u.clone(),
            None => {
                return Err(AppError::Config(owned("Supabase URL no configurada")));
            },
        };
        let key = match &self.supabase_publishable_key {
            Some(k) => k.clone(),
            None => {
                return Err(AppError::Config(owned("Publishable key no configurada")));
            },
        };
        Ok((url, key))
    }
}

/// A configuration key that holds the remote location.
pub open spec fn is_remote_key(k: Seq<char>) -> bool {
    k == "supabase_url"@ || k == "supabase_publishable_key"@
}

/// The keys of a configuration file to keep once the remote location is
/// cleared: every key but the two remote ones, in the order given, so
/// every other setting in the file is left untouched.
pub fn clear_remote_config(keys: Vec<String>) -> (r: Vec<String>)
    ensures
        r@ == keys@.filter(|k: String| !is_remote_key(k@)),
{
    let ghost pred = |k: String| !is_remote_key(k@);
    let mut kept: Vec<String> = Vec::new();
    let n = keys.len();
    let mut i: usize = 0;
    while i < n
        invariant
            n == keys@.len(),
            i <= n,
            pred == (|k: String| !is_remote_key(k@)),
            kept@ == keys@.take(i as int).filter(pred),
        decreases n - i,
    {
        proof {
            assert(keys@.take(i + 1) =~= keys@.take(i as int).push(keys@[i as int]));
            keys@.take(i as int).lemma_filter_push(keys@[i as int], pred);
        }
        let k = &keys[i];
        if !(crate::text::str_eq(k.as_str(), "supabase_url") || crate::text::str_eq(
            k.as_str(),
            "supabase_publishable_key",
        )) {
            kept.push(k.clone());
        }
        i = i + 1;
    }
    proof {
        assert(keys@.take(n as int) =~= keys@);
    }
    kept
}

/// The URL and key a remote command uses: those given on the command line,
/// else those configured; a missing one is a configuration error that says
/// how to provide it.
pub fn remote_credentials(url: Option<String>, key: Option<String>, settings: &Settings) -> (r:
    Result<(String, String)>)
    ensures
        r is Ok <==> (url is Some || settings.supabase_url is Some) && (key is Some
            || settings.supabase_publishable_key is Some),
        r matches Ok((u, k)) ==> Some(u) == (if url is Some {
            url
        } else {
            settings.supabase_url
        }) && Some(k) == (if key is Some {
            key
        } else {
            settings.supabase_publishable_key
        }),
        r matches Err(e) ==> e is Config,
        url is None && settings.supabase_url is None ==> (r matches Err(AppError::Config(m)) && m@
            == "No hay URL de Supabase. Pásala con --url o configura MONEY_TRACKER_SUPABASE_URL."@),
{
    let u = match url {
        Some(u) => u,
        None => match &settings.supabase_url {
            Some(u) => u.clone(),
            None => {
                return Err(
                    AppError::Config(
                        owned(
                            "No hay URL de Supabase. Pásala con --url o configura MONEY_TRACKER_SUPABASE_URL.",
                        ),
                    ),
                );
            },
        },
    };
    let k = match key {
        Some(k) => k,
        None => match &settings.supabase_publishable_key {
            Some(k) => k.clone(),
            None => {
                return Err(
                    AppError::Config(
                        owned(
                            "No hay publishable key. Pásala con --key o configura MONEY_TRACKER_SUPABASE_KEY.",
                        ),
                    ),
                );
            },
        },
    };
    Ok((u, k))
}

/// `part` appended to the path `base` the way a relative component is
/// pushed onto a Unix path: with a `/` between them unless `base` is empty
/// or already ends with one.
pub open spec fn joined(base: Seq<char>, part: Seq<char>) -> Seq<char> {
    if base.len() == 0 || base.last() == '/' {
        base + part
    } else {
        base + seq!['/'] + part
    }
}

fn join_path(base: &str, part: &str) -> (r: String)
    ensures
        r@ == joined(base@, part@),
{
    let n = base.unicode_len();
    if n == 0 || base.get_char(n - 1) == '/' {
        concat(base, part)
    } else {
        let with_sep = concat(base, "/");
        proof {
            reveal_strlit("/");
            assert(with_sep@ == base@ + seq!['/']);
        }
        concat(with_sep.as_str(), part)
    }
}

/// The home directory the environment names: `HOME`, else `USERPROFILE`,
/// else the current directory.
pub open spec fn home_of(home: Option<String>, userprofile: Option<String>) -> Seq<char> {
    match home {
        Some(h) => h@,
        None => match userprofile {
            Some(u) => u@,
            None => "."@,
        },
    }
}

/// The local database (and, in remote mode, the mirror) path:
/// `MONEY_TRACKER_DB` when set, otherwise `.money-tracker/data.db` under
/// the home directory.
pub fn mirror_path(db_var: Option<String>, home: Option<String>, userprofile: Option<String>) -> (r:
    String)
    ensures
        db_var matches Some(p) ==> r@ == p@,
        db_var is None ==> r@ == joined(
            joined(home_of(home, userprofile), ".money-tracker"@),
            "data.db"@,
        ),
{
    match db_var {
        Some(p) => p,
        None => {
            let h = match home {
                Some(h) => h,
                None => match userprofile {
                    Some(u) => u,
                    None => {
                        proof {
                            reveal_strlit(".");
                        }
                        owned(".")
                    },
                },
            };
            let dir = join_path(h.as_str(), ".money-tracker");
            join_path(dir.as_str(), "data.db")
        },
    }
}

} // verus!
