//! Publishing: which modules go into the plugin manifests and what their
//! entries say.
//!
//! Serialising the manifests and writing them is the caller's part.
use vstd::prelude::*;

use crate::collections::string_views;
use crate::config::{ModuleConfig, SkilletConfig};
use crate::parse::opt_view;
use crate::text::concat;

verus! {

/// What `publish` did.
#[derive(Debug)]
pub struct PublishReport {
    /// Modules whose manifests were written, in name order.
    pub modules_published: Vec<String>,
    /// Files written, relative to the workspace root.
    pub files_written: Vec<String>,
}

/// The marketplace entry of one published module.
#[derive(Debug)]
pub struct PluginEntry {
    /// The module's name.
    pub name: String,
    /// The module's version.
    pub version: String,
    /// The module's description, if any.
    pub description: Option<String>,
    /// Where the module's outputs are, as `./{out_dir}` with `/` separators.
    pub source: String,
}

/// A marketplace entry as plain values.
pub struct PluginEntryView {
    /// The module's name.
    pub name: Seq<char>,
    /// The module's version.
    pub version: Seq<char>,
    /// The module's description, if any.
    pub description: Option<Seq<char>>,
    /// Where the module's outputs are.
    pub source: Seq<char>,
}

impl View for PluginEntry {
    type V = PluginEntryView;

    open spec fn view(&self) -> PluginEntryView {
        PluginEntryView {
            name: self.name@,
            version: self.version@,
            description: opt_view(self.description),
            source: self.source@,
        }
    }
}

/// `s` with each `\` turned into `/`.
pub open spec fn slashed(s: Seq<char>) -> Seq<char> {
    s.map_values(|c: char| if c == '\\' { '/' } else { c })
}

/// The marketplace entry of module `name`.
pub open spec fn plugin_entry(name: Seq<char>, m: ModuleConfig) -> PluginEntryView {
    PluginEntryView {
        name,
        version: m.version@,
        description: opt_view(m.description),
        source: "./"@ + slashed(m.out_dir@),
    }
}

/// The entries of the modules among `ks` (with configurations `ms`) that are
/// published, in order.
pub open spec fn published_entries(ks: Seq<Seq<char>>, ms: Seq<ModuleConfig>) -> Seq<PluginEntryView>
    decreases ks.len(),
{
    if ks.len() == 0 || ms.len() == 0 {
        Seq::empty()
    } else {
        let rest = published_entries(ks.drop_last(), ms.drop_last());
        if ms.last().publish {
            rest.push(plugin_entry(ks.last(), ms.last()))
        } else {
            rest
        }
    }
}

/// The views of marketplace entries.
pub open spec fn entry_views(v: Seq<PluginEntry>) -> Seq<PluginEntryView> {
    v.map_values(|e: PluginEntry| e@)
}

/// `s` with each `\` turned into `/`.
pub fn slash_separated(s: &str) -> (r: String)
    ensures
        r@ == slashed(s@),
{
    let n = s.unicode_len();
    let mut out = String::new();
    let mut i: usize = 0;
    while i < n
        invariant
            n == s@.len(),
            i <= n,
            out@ == slashed(s@.subrange(0, i as int)),
        decreases n - i,
    {
        let c = s.get_char(i);
        if c == '\\' {
            out.append("/");
            proof {
                reveal_strlit("/");
            }
        } else {
            out.append(s.substring_char(i, i + 1));
        }
        proof {
            assert(s@.subrange(0, i + 1) =~= s@.subrange(0, i as int).push(c));
            assert(slashed(s@.subrange(0, i + 1)) =~= slashed(s@.subrange(0, i as int)).push(
                if c == '\\' { '/' } else { c },
            ));
        }
        i = i + 1;
    }
    proof {
        assert(s@.subrange(0, n as int) =~= s@);
    }
    out
}

/// The marketplace entries of the published modules, in module-name order.
pub fn plugin_entries(cfg: &SkilletConfig) -> (r: Vec<PluginEntry>)
    requires
        cfg.wf(),
    ensures
        entry_views(r@) == published_entries(cfg.modules.key_seq(), cfg.modules.val_seq()),
{
    proof {
        cfg.modules.lemma_entries();
    }
    let ghost ks = cfg.modules.key_seq();
    let ghost ms = cfg.modules.val_seq();
    let n = cfg.modules.len();
    let mut out: Vec<PluginEntry> = Vec::new();
    let mut i: usize = 0;
    while i < n
        invariant
            cfg.wf(),
            ks == cfg.modules.key_seq(),
            ms == cfg.modules.val_seq(),
            ks.len() == ms.len(),
            n == ks.len(),
            i <= n,
            entry_views(out@) == published_entries(ks.subrange(0, i as int), ms.subrange(0, i as int)),
        decreases n - i,
    {
        let k = cfg.modules.key_at(i);
        let m = cfg.modules.value_at(i);
        proof {
            assert(ks.subrange(0, i + 1).drop_last() =~= ks.subrange(0, i as int));
            assert(ms.subrange(0, i + 1).drop_last() =~= ms.subrange(0, i as int));
            assert(ks.subrange(0, i + 1).last() == k@);
            assert(ms.subrange(0, i + 1).last() == *m);
        }
        if m.publish {
            let out_dir = slash_separated(m.out_dir.as_str());
            let description = match &m.description {
                Some(d) => Some(String::from_str(d.as_str())),
                None => None,
            };
            let e = PluginEntry {
                name: String::from_str(k.as_str()),
                version: String::from_str(m.version.as_str()),
                description,
                source: concat("./", out_dir.as_str()),
            };
            let ghost ev = e@;
            proof {
                reveal_strlit("./");
                assert(ev == plugin_entry(k@, *m));
            }
            let ghost before = out@;
            out.push(e);
            proof {
                assert(entry_views(out@) =~= entry_views(before).push(ev));
            }
        }
        i = i + 1;
    }
    proof {
        assert(ks.subrange(0, n as int) =~= ks);
        assert(ms.subrange(0, n as int) =~= ms);
    }
    out
}

/// The modules whose manifests are written: the published ones, in name
/// order.
pub fn published_module_names(entries: &Vec<PluginEntry>) -> (r: Vec<String>)
    ensures
        string_views(r@) == entry_views(entries@).map_values(|e: PluginEntryView| e.name),
{
    let mut out: Vec<String> = Vec::new();
    let mut i: usize = 0;
    while i < entries.len()
        invariant
            i <= entries@.len(),
            string_views(out@) == entry_views(entries@.subrange(0, i as int)).map_values(
                |e: PluginEntryView| e.name,
            ),
        decreases entries@.len() - i,
    {
        let ghost before = out@;
        out.push(String::from_str(entries[i].name.as_str()));
        proof {
            assert(entries@.subrange(0, i + 1) =~= entries@.subrange(0, i as int).push(entries@[i as int]));
            assert(string_views(out@) =~= string_views(before).push(entries@[i as int].name@));
            assert(string_views(out@) =~= entry_views(entries@.subrange(0, i + 1)).map_values(
                |e: PluginEntryView| e.name,
            ));
        }
        i = i + 1;
    }
    proof {
        assert(entries@.subrange(0, entries@.len() as int) =~= entries@);
    }
    out
}

} // verus!
