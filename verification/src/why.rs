//! Why a server would be worth installing, judged against the servers a
//! user already has.

use vstd::prelude::*;
use vstd::string::StringExecFns;
use crate::error::McpRegError;
use crate::registry::compare::{contains_text, in_seq, not_in_seq};
use crate::registry::entry::{full_name_of, ServerEntry};
use crate::registry::listing::{split_ref, split_ref_spec};
use crate::registry::store::{join_strings, joined};
use crate::registry::validate::{msg_if, push_text, push_when, texts};
use crate::text::{cat, cat3, dec, dec_int, i64_to_string, str_eq, u64_to_string};

verus! {

/// A server the user has installed, by reference.
pub struct InstalledServer {
    pub owner: String,
    pub name: String,
}

/// Reads an `owner/name` reference for the `why` command.
pub fn parse_server_ref(s: &str) -> (r: Result<(String, String), McpRegError>)
    ensures
        match split_ref_spec(s@) {
            Some(p) => r matches Ok(x) && x.0@ == p.0 && x.1@ == p.1,
            None => r matches Err(McpRegError::Config(m)) && m@ == "Server reference must be in format 'owner/name'"@,
        },
{
    match split_ref(s) {
        Some(p) => Ok(p),
        None => Err(McpRegError::Config(String::from_str("Server reference must be in format 'owner/name'"))),
    }
}

/// Is this installed server the one asked about?
pub open spec fn is_target(s: InstalledServer, owner: Seq<char>, name: Seq<char>) -> bool {
    s.owner@ == owner && s.name@ == name
}

/// The target's tool names that `e` also declares, in the target's order.
pub open spec fn shared_with(target: ServerEntry, e: ServerEntry) -> Seq<Seq<char>> {
    texts(target.tools@).filter(in_seq(texts(e.tools@)))
}

/// The installed servers of the target's category (other than the target),
/// by full name, among the first `n`.
pub open spec fn siblings(installed: Seq<InstalledServer>, cats: Seq<String>, target_cat: Seq<char>,
    owner: Seq<char>, name: Seq<char>, n: nat) -> Seq<Seq<char>>
    decreases n,
{
    if n == 0 {
        Seq::empty()
    } else {
        let s = installed[n - 1];
        siblings(installed, cats, target_cat, owner, name, (n - 1) as nat)
            + msg_if(cats[n - 1]@ == target_cat && !is_target(s, owner, name), full_name_of(s.owner@, s.name@))
    }
}

/// The reasons about shared tools, one per installed server (other than the
/// target) found in the registry that shares any, among the first `n`.
pub open spec fn share_reasons(target: ServerEntry, installed: Seq<InstalledServer>, entries: Seq<Option<ServerEntry>>,
    owner: Seq<char>, name: Seq<char>, n: nat) -> Seq<Seq<char>>
    decreases n,
{
    if n == 0 {
        Seq::empty()
    } else {
        share_reasons(target, installed, entries, owner, name, (n - 1) as nat) + match entries[n - 1] {
            Some(e) => {
                let shared = shared_with(target, e);
                msg_if(!is_target(installed[n - 1], owner, name) && shared.len() > 0,
                    "Shares "@ + dec(shared.len()) + " tool(s) with "@ + e.full_name_spec() + ": "@ + joined(shared, ", "@))
            },
            None => Seq::empty(),
        }
    }
}

/// Every tool name of the installed servers found in the registry, among the
/// first `n`.
pub open spec fn installed_tools(entries: Seq<Option<ServerEntry>>, n: nat) -> Seq<Seq<char>>
    decreases n,
{
    if n == 0 {
        Seq::empty()
    } else {
        installed_tools(entries, (n - 1) as nat) + match entries[n - 1] {
            Some(e) => texts(e.tools@),
            None => Seq::empty(),
        }
    }
}

/// What the `why` command finds.
pub struct WhyReport {
    pub already_installed: bool,
    pub reasons: Vec<String>,
    pub new_tools: Vec<String>,
}

/// The tools the target would add: those no installed server declares.
pub open spec fn new_tools_spec(target: ServerEntry, entries: Seq<Option<ServerEntry>>) -> Seq<Seq<char>> {
    texts(target.tools@).filter(not_in_seq(installed_tools(entries, entries.len())))
}

/// The reasons, in order: already installed; same category as installed
/// servers; shared tools with each installed server; new tools; popularity
/// (10000 downloads or more).
pub open spec fn why_reasons(target: ServerEntry, owner: Seq<char>, name: Seq<char>, target_cat: Seq<char>,
    installed: Seq<InstalledServer>, cats: Seq<String>, entries: Seq<Option<ServerEntry>>) -> Seq<Seq<char>> {
    let already = exists|i: int| 0 <= i < installed.len() && is_target(#[trigger] installed[i], owner, name);
    let sib = siblings(installed, cats, target_cat, owner, name, installed.len());
    let new_tools = new_tools_spec(target, entries);
    msg_if(already, "You already have this server installed."@)
        + msg_if(sib.len() > 0, "Same category ("@ + target_cat + ") as your installed: "@ + joined(sib, ", "@))
        + share_reasons(target, installed, entries, owner, name, installed.len())
        + msg_if(new_tools.len() > 0, "Adds "@ + dec(new_tools.len()) + " new tool(s) you don't have: "@ + joined(new_tools, ", "@))
        + msg_if(target.downloads >= 10000, "Popular server with "@ + dec_int(target.downloads as int) + " downloads"@)
}

/// A tool name occurs among the installed servers' tools exactly when one
/// of the first `n` installed servers found in the registry declares it.
proof fn lemma_installed_tools_contains(entries: Seq<Option<ServerEntry>>, n: nat, x: Seq<char>)
    requires
        n <= entries.len(),
    ensures
        installed_tools(entries, n).contains(x) <==> exists|i: int| 0 <= i < n
            && (#[trigger] entries[i] matches Some(e) && texts(e.tools@).contains(x)),
    decreases n,
{
    if n > 0 {
        lemma_installed_tools_contains(entries, (n - 1) as nat, x);
        let a = installed_tools(entries, (n - 1) as nat);
        let b = match entries[n - 1] {
            Some(e) => texts(e.tools@),
            None => Seq::<Seq<char>>::empty(),
        };
        assert(installed_tools(entries, n) == a + b);
        if (a + b).contains(x) {
            let k = choose|k: int| 0 <= k < (a + b).len() && (a + b)[k] == x;
            if k < a.len() {
                assert(a[k] == x);
            } else {
                assert(b[k - a.len()] == x);
                assert(b.contains(x));
            }
        }
        if a.contains(x) {
            let k = choose|k: int| 0 <= k < a.len() && a[k] == x;
            assert((a + b)[k] == x);
        }
        if exists|i: int| 0 <= i < n && (#[trigger] entries[i] matches Some(e) && texts(e.tools@).contains(x)) {
            let i = choose|i: int| 0 <= i < n && (#[trigger] entries[i] matches Some(e) && texts(e.tools@).contains(x));
            if i == n - 1 {
                let k = choose|k: int| 0 <= k < b.len() && b[k] == x;
                assert((a + b)[a.len() + k] == x);
            }
        }
    }
}

/// The new tools the target would add are exactly its tool names that no
/// installed server found in the registry declares.
pub proof fn law_why_new_tools(target: ServerEntry, entries: Seq<Option<ServerEntry>>, x: Seq<char>)
    ensures
        new_tools_spec(target, entries).contains(x) <==> texts(target.tools@).contains(x)
            && forall|i: int| 0 <= i < entries.len() ==> (#[trigger] entries[i] matches Some(e) ==> !texts(e.tools@).contains(x)),
{
    let inst = installed_tools(entries, entries.len());
    let tt = texts(target.tools@);
    let pred = not_in_seq(inst);
    lemma_installed_tools_contains(entries, entries.len(), x);
    if tt.filter(pred).contains(x) {
        tt.lemma_filter_contains_rev(pred, x);
        let k = choose|k: int| 0 <= k < tt.filter(pred).len() && tt.filter(pred)[k] == x;
        tt.lemma_filter_pred(pred, k);
    }
    if tt.contains(x) && !inst.contains(x) {
        let j = choose|j: int| 0 <= j < tt.len() && tt[j] == x;
        tt.lemma_filter_contains(pred, j);
    }
}

fn filter_by_presence(a: &Vec<String>, b: &Vec<String>, keep_present: bool) -> (r: Vec<String>)
    ensures
        keep_present ==> texts(r@) == texts(a@).filter(in_seq(texts(b@))),
        !keep_present ==> texts(r@) == texts(a@).filter(not_in_seq(texts(b@))),
{
    let ghost ta = texts(a@);
    let ghost tb = texts(b@);
    let ghost pred = if keep_present { in_seq(tb) } else { not_in_seq(tb) };
    let mut out: Vec<String> = Vec::new();
    let mut i: usize = 0;
    assert(ta.take(0) =~= Seq::<Seq<char>>::empty());
    assert(texts(out@) =~= Seq::<Seq<char>>::empty());
    while i < a.len()
        invariant
            i <= a.len(),
            ta == texts(a@),
            tb == texts(b@),
            pred == if keep_present { in_seq(tb) } else { not_in_seq(tb) },
            texts(out@) == ta.take(i as int).filter(pred),
        decreases a.len() - i,
    {
        assert(ta.take(i + 1) =~= ta.take(i as int).push(a[i as int]@));
        proof {
            ta.take(i as int).lemma_filter_push(a[i as int]@, pred);
        }
        let present = contains_text(b, &a[i]);
        if present == keep_present {
            let ghost before = texts(out@);
            out.push(a[i].clone());
            assert(texts(out@) =~= before.push(a[i as int]@));
        }
        i = i + 1;
    }
    assert(ta.take(a.len() as int) =~= ta);
    out
}

/// Explains why `target` (asked for as `owner/name`, of category
/// `target_cat`) would be worth installing, given the installed servers,
/// their categories (`cats[i]` for `installed[i]`) and their registry
/// entries where found (`entries[i]`).
pub fn why_install(target: &ServerEntry, owner: &str, name: &str, target_cat: &str, installed: &Vec<InstalledServer>,
    cats: &Vec<String>, entries: &Vec<Option<ServerEntry>>) -> (r: WhyReport)
    requires
        cats.len() == installed.len(),
        entries.len() == installed.len(),
    ensures
        r.already_installed == exists|i: int| 0 <= i < installed.len() && is_target(#[trigger] installed@[i], owner@, name@),
        texts(r.reasons@) == why_reasons(*target, owner@, name@, target_cat@, installed@, cats@, entries@),
        texts(r.new_tools@) == new_tools_spec(*target, entries@),
{
    let n = installed.len();
    // already installed, and the category siblings
    let mut already = false;
    let mut sib: Vec<String> = Vec::new();
    let mut i: usize = 0;
    assert(texts(sib@) =~= Seq::<Seq<char>>::empty());
    while i < n
        invariant
            n == installed.len(),
            cats.len() == n,
            i <= n,
            already == exists|k: int| 0 <= k < i && is_target(#[trigger] installed@[k], owner@, name@),
            texts(sib@) == siblings(installed@, cats@, target_cat@, owner@, name@, i as nat),
        decreases n - i,
    {
        let s = &installed[i];
        let me = str_eq(s.owner.as_str(), owner) && str_eq(s.name.as_str(), name);
        proof {
            if me {
                assert(is_target(installed@[i as int], owner@, name@));
            }
        }
        already = already || me;
        let same_cat = str_eq(cats[i].as_str(), target_cat);
        proof {
            reveal_strlit("/");
        }
        let ghost before = texts(sib@);
        assert(me == is_target(installed@[i as int], owner@, name@));
        if same_cat && !me {
            assert("/"@ =~= seq!['/']);
            push_text(&mut sib, cat3(s.owner.as_str(), "/", s.name.as_str()));
            assert(texts(sib@) =~= before + seq![full_name_of(installed@[i as int].owner@, installed@[i as int].name@)]);
        } else {
            assert(texts(sib@) =~= before + Seq::<Seq<char>>::empty());
        }
        i = i + 1;
    }
    let mut reasons: Vec<String> = Vec::new();
    assert(texts(reasons@) =~= Seq::<Seq<char>>::empty());
    push_when(&mut reasons, already, "You already have this server installed.");
    let ghost r1 = texts(reasons@);
    if sib.len() > 0 {
        let mut m = cat3("Same category (", target_cat, ") as your installed: ");
        let j = join_strings(&sib, ", ");
        m.append(j.as_str());
        push_text(&mut reasons, m);
    }
    let ghost r2 = texts(reasons@);
    assert(r2 =~= r1 + msg_if(texts(sib@).len() > 0, "Same category ("@ + target_cat@ + ") as your installed: "@ + joined(texts(sib@), ", "@)));
    // shared tools with each installed server
    let mut k: usize = 0;
    assert(r2 =~= r2 + share_reasons(*target, installed@, entries@, owner@, name@, 0));
    while k < n
        invariant
            n == installed.len(),
            entries.len() == n,
            k <= n,
            texts(reasons@) == r2 + share_reasons(*target, installed@, entries@, owner@, name@, k as nat),
        decreases n - k,
    {
        let ghost before = texts(reasons@);
        let s = &installed[k];
        let me = str_eq(s.owner.as_str(), owner) && str_eq(s.name.as_str(), name);
        match &entries[k] {
            Some(e) => {
                let shared = filter_by_presence(&target.tools, &e.tools, true);
                assert(me == is_target(installed@[k as int], owner@, name@));
                assert(texts(shared@) == shared_with(*target, *e));
                if !me && shared.len() > 0 {
                    let mut m = u64_to_string(shared.len() as u64);
                    m.append(" tool(s) with ");
                    let full = e.full_name();
                    m.append(full.as_str());
                    m.append(": ");
                    let j = join_strings(&shared, ", ");
                    m.append(j.as_str());
                    let m2 = cat("Shares ", m.as_str());
                    assert(texts(shared@).len() == shared.len());
                    assert(m2@ =~= "Shares "@ + dec(shared_with(*target, *e).len()) + " tool(s) with "@
                        + e.full_name_spec() + ": "@ + joined(shared_with(*target, *e), ", "@));
                    push_text(&mut reasons, m2);
                    assert(texts(reasons@) =~= before + seq!["Shares "@ + dec(shared_with(*target, *e).len()) + " tool(s) with "@
                        + e.full_name_spec() + ": "@ + joined(shared_with(*target, *e), ", "@)]);
                } else {
                    assert(texts(reasons@) =~= before + Seq::<Seq<char>>::empty());
                }
                assert(texts(reasons@) =~= before + msg_if(!is_target(installed@[k as int], owner@, name@) && shared_with(*target, *e).len() > 0,
                    "Shares "@ + dec(shared_with(*target, *e).len()) + " tool(s) with "@ + e.full_name_spec() + ": "@
                        + joined(shared_with(*target, *e), ", "@)));
            },
            None => {
                assert(texts(reasons@) =~= before + Seq::<Seq<char>>::empty());
            },
        }
        k = k + 1;
    }
    // every tool the installed servers declare
    let mut all_tools: Vec<String> = Vec::new();
    let mut t: usize = 0;
    assert(texts(all_tools@) =~= installed_tools(entries@, 0));
    while t < n
        invariant
            entries.len() == n,
            t <= n,
            texts(all_tools@) == installed_tools(entries@, t as nat),
        decreases n - t,
    {
        let ghost before = texts(all_tools@);
        match &entries[t] {
            Some(e) => {
                let mut q: usize = 0;
                while q < e.tools.len()
                    invariant
                        q <= e.tools.len(),
                        texts(all_tools@) == before + texts(e.tools@).take(q as int),
                    decreases e.tools.len() - q,
                {
                    let ghost b2 = texts(all_tools@);
                    all_tools.push(e.tools[q].clone());
                    assert(texts(all_tools@) =~= b2.push(e.tools@[q as int]@));
                    assert(texts(e.tools@).take(q + 1) =~= texts(e.tools@).take(q as int).push(e.tools@[q as int]@));
                    q = q + 1;
                }
                assert(texts(e.tools@).take(e.tools.len() as int) =~= texts(e.tools@));
            },
            None => {
                assert(texts(all_tools@) =~= before + Seq::<Seq<char>>::empty());
            },
        }
        t = t + 1;
    }
    let new_tools = filter_by_presence(&target.tools, &all_tools, false);
    let ghost r3 = texts(reasons@);
    if new_tools.len() > 0 {
        let mut m = cat("Adds ", u64_to_string(new_tools.len() as u64).as_str());
        m.append(" new tool(s) you don't have: ");
        let j = join_strings(&new_tools, ", ");
        m.append(j.as_str());
        push_text(&mut reasons, m);
    }
    let ghost r4 = texts(reasons@);
    assert(r4 =~= r3 + msg_if(texts(new_tools@).len() > 0, "Adds "@ + dec(texts(new_tools@).len()) + " new tool(s) you don't have: "@
        + joined(texts(new_tools@), ", "@)));
    if target.downloads >= 10000 {
        let d = i64_to_string(target.downloads);
        push_text(&mut reasons, cat3("Popular server with ", d.as_str(), " downloads"));
    }
    assert(texts(reasons@) =~= r4 + msg_if(target.downloads >= 10000, "Popular server with "@ + dec_int(target.downloads as int) + " downloads"@));
    WhyReport { already_installed: already, reasons, new_tools }
}

} // verus!
