//! Application locations derived from the XDG Base Directory values.

use vstd::prelude::*;
use crate::error::Error;
use crate::paths::{join, join_path, is_absolute, path_starts_with, slash, lemma_child_starts_with};
use crate::text::{ascii_bytes, ascii_of};

verus! {

/// Application-specific locations derived from the XDG Base Directory spec.
#[derive(Clone, Debug, PartialEq, Eq)]
pub struct XdgPaths {
    config: Vec<u8>,
    data: Vec<u8>,
    state: Vec<u8>,
    cache: Vec<u8>,
    runtime: Vec<u8>,
}

pub struct XdgView {
    pub config: Seq<u8>,
    pub data: Seq<u8>,
    pub state: Seq<u8>,
    pub cache: Seq<u8>,
    pub runtime: Seq<u8>,
}

impl View for XdgPaths {
    type V = XdgView;

    closed spec fn view(&self) -> XdgView {
        XdgView {
            config: self.config@,
            data: self.data@,
            state: self.state@,
            cache: self.cache@,
            runtime: self.runtime@,
        }
    }
}

pub open spec fn or_default(v: Option<Seq<u8>>, home: Seq<u8>, rel: Seq<char>) -> Seq<u8> {
    match v {
        Some(p) => p,
        None => join(home, ascii_of(rel)),
    }
}

/// The locations for a home directory and optional XDG overrides: each base
/// defaults below the home directory and holds an `mg-vault` directory; the
/// runtime directory is `mg-vault` below the runtime root when one is given,
/// otherwise `mg-vault/runtime` below the state base.
pub open spec fn xdg_spec(
    home: Seq<u8>,
    config: Option<Seq<u8>>,
    data: Option<Seq<u8>>,
    state: Option<Seq<u8>>,
    cache: Option<Seq<u8>>,
    runtime: Option<Seq<u8>>,
) -> XdgView {
    let app = ascii_of("mg-vault"@);
    let state_base = or_default(state, home, ".local/state"@);
    XdgView {
        config: join(or_default(config, home, ".config"@), app),
        data: join(or_default(data, home, ".local/share"@), app),
        state: join(state_base, app),
        cache: join(or_default(cache, home, ".cache"@), app),
        runtime: match runtime {
            Some(r) => join(r, app),
            None => join(state_base, ascii_of("mg-vault/runtime"@)),
        },
    }
}

/// Without a runtime root, the runtime directory lies inside the state directory.
pub proof fn lemma_default_runtime_under_state(
    home: Seq<u8>,
    config: Option<Seq<u8>>,
    data: Option<Seq<u8>>,
    state: Option<Seq<u8>>,
    cache: Option<Seq<u8>>,
)
    ensures
        path_starts_with(
            xdg_spec(home, config, data, state, cache, None).runtime,
            xdg_spec(home, config, data, state, cache, None).state,
        ),
{
    reveal_strlit("mg-vault");
    reveal_strlit("mg-vault/runtime");
    reveal_strlit("runtime");
    let base = or_default(state, home, ".local/state"@);
    let app = ascii_of("mg-vault"@);
    let deeper = ascii_of("mg-vault/runtime"@);
    let rest = ascii_of("runtime"@);
    assert(app =~= seq![109u8, 103u8, 45u8, 118u8, 97u8, 117u8, 108u8, 116u8]);
    assert(rest =~= seq![114u8, 117u8, 110u8, 116u8, 105u8, 109u8, 101u8]);
    assert(deeper =~= app.push(slash()) + rest);
    let st = join(base, app);
    assert(join(base, deeper) =~= st.push(slash()) + rest);
    lemma_child_starts_with(st, rest);
}

pub open spec fn opt_view(v: Option<Vec<u8>>) -> Option<Seq<u8>> {
    match v {
        Some(p) => Some(p@),
        None => None,
    }
}

/// A runtime root is given and is not absolute.
pub open spec fn relative_runtime(runtime: Option<Seq<u8>>) -> bool {
    match runtime {
        Some(p) => !is_absolute(p),
        None => false,
    }
}

fn base_or_default(v: Option<Vec<u8>>, home: &[u8], rel: &str) -> (r: Vec<u8>)
    requires
        crate::text::is_ascii_text(rel@),
    ensures
        r@ == or_default(opt_view(v), home@, rel@),
{
    match v {
        Some(p) => p,
        None => {
            let r = ascii_bytes(rel);
            join_path(home, r.as_slice())
        },
    }
}

impl XdgPaths {
    /// Resolve paths from explicit values, useful for isolated clients and tests.
    pub fn from_values(
        home: &[u8],
        config: Option<Vec<u8>>,
        data: Option<Vec<u8>>,
        state: Option<Vec<u8>>,
        cache: Option<Vec<u8>>,
    ) -> (r: Self)
        ensures
            r@ == xdg_spec(home@, opt_view(config), opt_view(data), opt_view(state), opt_view(cache), None),
    {
        Self::from_values_with_runtime(home, config, data, state, cache, None)
    }

    /// Resolve paths from explicit values including an optional private runtime root.
    pub fn from_values_with_runtime(
        home: &[u8],
        config: Option<Vec<u8>>,
        data: Option<Vec<u8>>,
        state: Option<Vec<u8>>,
        cache: Option<Vec<u8>>,
        runtime: Option<Vec<u8>>,
    ) -> (r: Self)
        ensures
            r@ == xdg_spec(home@, opt_view(config), opt_view(data), opt_view(state), opt_view(cache), opt_view(runtime)),
    {
        proof {
            reveal_strlit("mg-vault");
            reveal_strlit("mg-vault/runtime");
            reveal_strlit(".local/state");
            reveal_strlit(".config");
            reveal_strlit(".local/share");
            reveal_strlit(".cache");
        }
        let app = ascii_bytes("mg-vault");
        let state_base = base_or_default(state, home, ".local/state");
        let runtime = match runtime {
            Some(r) => join_path(r.as_slice(), app.as_slice()),
            None => {
                let rel = ascii_bytes("mg-vault/runtime");
                join_path(state_base.as_slice(), rel.as_slice())
            },
        };
        let config_base = base_or_default(config, home, ".config");
        let data_base = base_or_default(data, home, ".local/share");
        let cache_base = base_or_default(cache, home, ".cache");
        XdgPaths {
            config: join_path(config_base.as_slice(), app.as_slice()),
            data: join_path(data_base.as_slice(), app.as_slice()),
            state: join_path(state_base.as_slice(), app.as_slice()),
            cache: join_path(cache_base.as_slice(), app.as_slice()),
            runtime,
        }
    }

    /// Resolve paths from the values of `HOME` and the XDG variables: `HOME` must
    /// be set, and a runtime root, when set, must be absolute.
    pub fn from_env_values(
        home: Option<Vec<u8>>,
        config: Option<Vec<u8>>,
        data: Option<Vec<u8>>,
        state: Option<Vec<u8>>,
        cache: Option<Vec<u8>>,
        runtime: Option<Vec<u8>>,
    ) -> (r: Result<Self, Error>)
        ensures
            match home {
                None => r matches Err(Error::UnsafePath(m)) && m@ == "HOME is not set"@,
                Some(h) => if relative_runtime(opt_view(runtime)) {
                    r matches Err(Error::UnsafePath(m)) && m@ == "XDG_RUNTIME_DIR must be an absolute path"@
                } else {
                    r matches Ok(x) && x@ == xdg_spec(h@, opt_view(config), opt_view(data), opt_view(state),
                        opt_view(cache), opt_view(runtime))
                },
            },
    {
        let home = match home {
            Some(h) => h,
            None => return Err(Error::UnsafePath("HOME is not set".to_owned())),
        };
        match &runtime {
            Some(p) => {
                if !(p.len() > 0 && p[0] == 47u8) {
                    return Err(Error::UnsafePath("XDG_RUNTIME_DIR must be an absolute path".to_owned()));
                }
            },
            None => {},
        }
        Ok(Self::from_values_with_runtime(home.as_slice(), config, data, state, cache, runtime))
    }

    pub fn config_dir(&self) -> (r: Vec<u8>)
        ensures
            r@ == self@.config,
    {
        self.config.clone()
    }

    pub fn data_dir(&self) -> (r: Vec<u8>)
        ensures
            r@ == self@.data,
    {
        self.data.clone()
    }

    pub fn state_dir(&self) -> (r: Vec<u8>)
        ensures
            r@ == self@.state,
    {
        self.state.clone()
    }

    pub fn cache_dir(&self) -> (r: Vec<u8>)
        ensures
            r@ == self@.cache,
    {
        self.cache.clone()
    }

    pub fn runtime_dir(&self) -> (r: Vec<u8>)
        ensures
            r@ == self@.runtime,
    {
        self.runtime.clone()
    }

    /// The service endpoint: `indexd.sock` in the runtime directory.
    pub fn service_socket(&self) -> (r: Vec<u8>)
        ensures
            r@ == join(self@.runtime, ascii_of("indexd.sock"@)),
    {
        proof {
            reveal_strlit("indexd.sock");
        }
        let name = ascii_bytes("indexd.sock");
        join_path(self.runtime.as_slice(), name.as_slice())
    }

    /// The vault registry: `vaults.json` in the configuration directory.
    pub fn registry_file(&self) -> (r: Vec<u8>)
        ensures
            r@ == join(self@.config, ascii_of("vaults.json"@)),
    {
        proof {
            reveal_strlit("vaults.json");
        }
        let name = ascii_bytes("vaults.json");
        join_path(self.config.as_slice(), name.as_slice())
    }
}

} // verus!
