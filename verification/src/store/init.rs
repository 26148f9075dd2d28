//! What a fresh farm is seeded with: its `config.yaml` and `schema` texts.

use vstd::prelude::*;
use crate::text::{chars_of, string_of, push_str, push_all};
use crate::store::write::{dec, dec_spec};
use crate::store::layout::SCHEMA;

verus! {

/// The values a new farm's `config.yaml` is seeded with.
pub struct InitConfig {
    pub prefix: String,
    pub default_type: String,
    pub default_priority: u8,
    pub vim_mode: bool,
}

impl Default for InitConfig {
    /// The built-in fallbacks: herd `yak`, type `task`, priority 3, vim keys.
    fn default() -> (r: InitConfig)
        ensures
            r.prefix@ == "yak"@,
            r.default_type@ == "task"@,
            r.default_priority == 3,
            r.vim_mode,
    {
        InitConfig {
            prefix: crate::text::owned("yak"),
            default_type: crate::text::owned("task"),
            default_priority: 3,
            vim_mode: true,
        }
    }
}

/// Result of initializing a farm.
pub enum InitOutcome {
    /// A fresh farm was written at the `.yaks/` path.
    Created,
    /// The `.yaks/` directory already existed; nothing was written.
    AlreadyExists,
}

pub open spec fn bool_text(b: bool) -> Seq<char> {
    if b {
        "true"@
    } else {
        "false"@
    }
}

/// `herd: <prefix>`, `default_type: <type>`, `default_priority: <n>` and
/// `vim_mode: <bool>`, one per line.
pub open spec fn init_config_spec(prefix: Seq<char>, kind: Seq<char>, priority: u8, vim: bool) -> Seq<char> {
    "herd: "@ + prefix + "\ndefault_type: "@ + kind + "\ndefault_priority: "@ + dec_spec(priority as nat)
        + "\nvim_mode: "@ + bool_text(vim) + "\n"@
}

/// The `config.yaml` text a new farm starts with.
pub fn init_config_text(cfg: &InitConfig) -> (r: String)
    ensures
        r@ == init_config_spec(cfg.prefix@, cfg.default_type@, cfg.default_priority, cfg.vim_mode),
{
    let mut out = chars_of("herd: ");
    push_str(&mut out, cfg.prefix.as_str());
    push_str(&mut out, "\ndefault_type: ");
    push_str(&mut out, cfg.default_type.as_str());
    push_str(&mut out, "\ndefault_priority: ");
    push_all(&mut out, &dec(cfg.default_priority as u64));
    push_str(&mut out, "\nvim_mode: ");
    if cfg.vim_mode {
        push_str(&mut out, "true");
    } else {
        push_str(&mut out, "false");
    }
    push_str(&mut out, "\n");
    string_of(&out)
}

/// The `schema` marker text of this build: its version and a line break.
pub fn schema_text() -> (r: String)
    ensures
        r@ == dec_spec(SCHEMA as nat) + seq!['\n'],
{
    let mut out = dec(SCHEMA as u64);
    out.push('\n');
    string_of(&out)
}

} // verus!
