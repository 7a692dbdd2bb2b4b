use vstd::prelude::*;
use vstd::string::StrSliceExecFns;

use crate::graph::string_eq_str;

verus! {

/// The suffix that marks an item name as a package to install with the
/// system package manager.
pub open spec fn apt_suffix() -> Seq<char> {
    "<apt-install>"@
}

/// Whether an item name carries the package-manager suffix.
pub open spec fn is_apt_install(name: Seq<char>) -> bool {
    &&& name.len() >= apt_suffix().len()
    &&& name.subrange(name.len() - apt_suffix().len(), name.len() as int) == apt_suffix()
}

/// What is to be done for one item name: switch the package sources, run
/// the package manager on the bare package name, or nothing the library
/// knows how to classify.
pub enum Action {
    ChangeAptSource,
    AptInstall(String),
    Skip,
}

/// Classifies an item name: the literal name "apt" asks for the package
/// sources to be changed; a name carrying the package-manager suffix asks
/// for that package, suffix stripped, to be installed; anything else is
/// left to other collaborators.
pub fn action_for(name: &str) -> (r: Action)
    ensures
        name@ == "apt"@ ==> r is ChangeAptSource,
        name@ != "apt"@ && is_apt_install(name@) ==> (r matches Action::AptInstall(p) && p@
            == name@.subrange(0, name@.len() - apt_suffix().len())),
        name@ != "apt"@ && !is_apt_install(name@) ==> r is Skip,
{
    proof {
        reveal_strlit("apt");
        reveal_strlit("<apt-install>");
    }
    if string_eq_str(&name.to_owned(), "apt") {
        return Action::ChangeAptSource;
    }
    let sfx = "<apt-install>";
    let sfx_len: usize = sfx.unicode_len();
    let len: usize = name.unicode_len();
    if len >= sfx_len {
        let tail = name.substring_char(len - sfx_len, len);
        if string_eq_str(&tail.to_owned(), "<apt-install>") {
            let head = name.substring_char(0, len - sfx_len);
            return Action::AptInstall(head.to_owned());
        }
    }
    Action::Skip
}

/// Carries the ordered item names a traversal produced, and an optional
/// proxy server address, to whatever performs the actions.
pub struct Installer {
    pub items: Vec<String>,
    pub proxy: String,
}

impl Installer {
    /// Packs up the item names to act on; a missing proxy is kept as the
    /// empty address.
    pub fn new(items: &mut Vec<String>, proxy: Option<&str>) -> (r: Installer)
        ensures
            final(items)@ == old(items)@,
            r.items@ == old(items)@,
            r.proxy@ == (match proxy {
                Some(s) => s@,
                None => Seq::<char>::empty(),
            }),
    {
        let mut copied: Vec<String> = Vec::new();
        let mut k: usize = 0;
        while k < items.len()
            invariant
                0 <= k <= items@.len(),
                items@ == old(items)@,
                copied@ == items@.take(k as int),
            decreases items@.len() - k,
        {
            copied.push(items[k].clone());
            proof {
                assert(copied@ =~= items@.take(k + 1));
            }
            k += 1;
        }
        proof {
            assert(items@.take(items@.len() as int) =~= items@);
        }
        let proxy = match proxy {
            Some(s) => s.to_owned(),
            None => String::new(),
        };
        Installer { items: copied, proxy }
    }
}

} // verus!
