//! The persisted state: which mods are installed, and (where the host
//! platform needs it) which device variant and authentication token are
//! configured.

use vstd::prelude::*;

verus! {

/// The device variant that mods are installed for, on the host platform
/// where two install targets are possible.
#[derive(Clone, Copy, Debug, PartialEq, Eq, Structural)]
pub enum BonelabPlatform {
    Windows,
    Quest,
}

impl BonelabPlatform {
    /// Parses a platform from a numeric choice: `0` is `Windows`, `1` is
    /// `Quest`, anything else is rejected.
    pub fn try_from_index(value: usize) -> (r: Option<BonelabPlatform>)
        ensures
            r == (if value == 0 {
                Some(BonelabPlatform::Windows)
            } else if value == 1 {
                Some(BonelabPlatform::Quest)
            } else {
                None::<BonelabPlatform>
            }),
    {
        match value {
            0 => Some(BonelabPlatform::Windows),
            1 => Some(BonelabPlatform::Quest),
            _ => None,
        }
    }

    /// The display name of the variant.
    pub fn name(&self) -> (r: &'static str)
        ensures
            r@ == (match *self {
                BonelabPlatform::Windows => "Windows"@,
                BonelabPlatform::Quest => "Quest"@,
            }),
    {
        match *self {
            BonelabPlatform::Windows => "Windows",
            BonelabPlatform::Quest => "Quest",
        }
    }
}

/// A record of one installed mod: when it was last updated and the name of
/// the folder (raw platform-native bytes) that holds it.
#[derive(Clone, Debug, PartialEq, Eq)]
pub struct InstalledMod {
    pub date_updated: u64,
    pub folder: Vec<u8>,
}

/// Mathematical model of an [`InstalledMod`].
pub struct InstalledModView {
    pub date_updated: u64,
    pub folder: Seq<u8>,
}

impl View for InstalledMod {
    type V = InstalledModView;

    open spec fn view(&self) -> InstalledModView {
        InstalledModView { date_updated: self.date_updated, folder: self.folder@ }
    }
}

/// The mod table is a sequence of (identifier, record) entries whose
/// identifiers are pairwise distinct, so it denotes a finite map.
pub open spec fn entries_wf(s: Seq<(u64, InstalledModView)>) -> bool {
    forall|i: int, j: int|
        0 <= i < j < s.len() ==> (#[trigger] s[i]).0 != (#[trigger] s[j]).0
}

/// Whether some entry of `s` carries the identifier `k`.
pub open spec fn has_key(s: Seq<(u64, InstalledModView)>, k: u64) -> bool {
    exists|i: int| 0 <= i < s.len() && (#[trigger] s[i]).0 == k
}

/// The index of the entry carrying `k` (unique when `entries_wf(s)`).
pub open spec fn index_of_key(s: Seq<(u64, InstalledModView)>, k: u64) -> int {
    choose|i: int| 0 <= i < s.len() && (#[trigger] s[i]).0 == k
}

/// The table after installing `(k, v)`: the entry for `k` is replaced if one
/// exists, otherwise a new entry is appended.
pub open spec fn seq_install(
    s: Seq<(u64, InstalledModView)>,
    k: u64,
    v: InstalledModView,
) -> Seq<(u64, InstalledModView)> {
    if has_key(s, k) {
        s.update(index_of_key(s, k), (k, v))
    } else {
        s.push((k, v))
    }
}

/// The table after uninstalling `k`: the entry for `k` is removed if one
/// exists, otherwise the table is unchanged.
pub open spec fn seq_remove(s: Seq<(u64, InstalledModView)>, k: u64) -> Seq<
    (u64, InstalledModView),
> {
    if has_key(s, k) {
        s.remove(index_of_key(s, k))
    } else {
        s
    }
}

/// Mathematical model of an [`AppData`].
pub struct AppDataView {
    pub modio_token: Option<Seq<u8>>,
    pub platform: Option<BonelabPlatform>,
    pub installed_mods: Seq<(u64, InstalledModView)>,
}

impl AppDataView {
    /// Identifiers are pairwise distinct.
    pub open spec fn wf(self) -> bool {
        entries_wf(self.installed_mods)
    }

    /// The default state: nothing installed, nothing configured.
    pub open spec fn empty() -> AppDataView {
        AppDataView {
            modio_token: None,
            platform: None,
            installed_mods: Seq::empty(),
        }
    }
}

/// The persisted root record. The token and platform configuration may be
/// unset until the user configures them; the mod table maps each installed
/// mod's identifier to its record, each identifier at most once.
#[derive(Debug, PartialEq, Eq)]
pub struct AppData {
    modio_token: Option<Vec<u8>>,
    platform: Option<BonelabPlatform>,
    installed_mods: Vec<(u64, InstalledMod)>,
}

/// Entry-wise view of the mod table.
pub open spec fn entries_view(v: Seq<(u64, InstalledMod)>) -> Seq<(u64, InstalledModView)> {
    v.map_values(|e: (u64, InstalledMod)| (e.0, e.1@))
}

impl View for AppData {
    type V = AppDataView;

    closed spec fn view(&self) -> AppDataView {
        AppDataView {
            modio_token: match self.modio_token {
                Some(ref t) => Some(t@),
                None => None,
            },
            platform: self.platform,
            installed_mods: entries_view(self.installed_mods@),
        }
    }
}

impl Default for AppData {
    /// The default state: nothing installed, nothing configured.
    fn default() -> (r: AppData)
        ensures
            r@ == AppDataView::empty(),
            r@.wf(),
    {
        let r = AppData { modio_token: None, platform: None, installed_mods: Vec::new() };
        proof {
            assert(r@.installed_mods =~= Seq::<(u64, InstalledModView)>::empty());
            assert(r@ =~= AppDataView::empty());
        }
        r
    }
}

impl AppData {
    /// The configured authentication token, if one is set.
    pub fn modio_token(&self) -> (r: &Option<Vec<u8>>)
        ensures
            self@.modio_token == (match r {
                Some(t) => Some(t@),
                None => None::<Seq<u8>>,
            }),
    {
        &self.modio_token
    }

    /// Sets or clears the authentication token.
    pub fn set_modio_token(&mut self, t: Option<Vec<u8>>)
        ensures
            final(self)@.modio_token == (match t {
                Some(ref b) => Some(b@),
                None => None::<Seq<u8>>,
            }),
            final(self)@.platform == old(self)@.platform,
            final(self)@.installed_mods == old(self)@.installed_mods,
    {
        self.modio_token = t;
    }

    /// The configured device variant, if one is set.
    pub fn platform(&self) -> (r: Option<BonelabPlatform>)
        ensures
            r == self@.platform,
    {
        self.platform
    }

    /// Sets or clears the device variant.
    pub fn set_platform(&mut self, p: Option<BonelabPlatform>)
        ensures
            final(self)@.platform == p,
            final(self)@.modio_token == old(self)@.modio_token,
            final(self)@.installed_mods == old(self)@.installed_mods,
    {
        self.platform = p;
    }

    /// The mod table, as (identifier, record) entries.
    pub fn installed_mods(&self) -> (r: &Vec<(u64, InstalledMod)>)
        ensures
            entries_view(r@) == self@.installed_mods,
    {
        &self.installed_mods
    }

    /// The number of installed mods.
    pub fn installed_count(&self) -> (r: usize)
        ensures
            r == self@.installed_mods.len(),
    {
        self.installed_mods.len()
    }

    /// Looks up the record of the mod with identifier `mod_id`.
    pub fn get_mod(&self, mod_id: u64) -> (r: Option<&InstalledMod>)
        requires
            self@.wf(),
        ensures
            match r {
                Some(m) => has_key(self@.installed_mods, mod_id) && (mod_id, m@)
                    == self@.installed_mods[index_of_key(self@.installed_mods, mod_id)],
                None => !has_key(self@.installed_mods, mod_id),
            },
    {
        let n = self.installed_mods.len();
        let mut i: usize = 0;
        while i < n
            invariant
                n == self.installed_mods.len(),
                i <= n,
                self@.wf(),
                forall|j: int| 0 <= j < i ==> (#[trigger] self@.installed_mods[j]).0 != mod_id,
            decreases n - i,
        {
            let e = &self.installed_mods[i];
            if e.0 == mod_id {
                proof {
                    let s = self@.installed_mods;
                    assert(s[i as int].0 == mod_id);
                    let w = index_of_key(s, mod_id);
                    assert(s[w].0 == mod_id);
                    if w != i as int {
                        assert(s[w].0 != s[i as int].0);  // from wf
                    }
                }
                return Some(&e.1);
            }
            i += 1;
        }
        None
    }

    /// Records that the mod with identifier `mod_id` is installed as
    /// `record`. An existing record for the same identifier is replaced
    /// outright, never merged; a new identifier gains a new entry.
    pub fn install_mod(&mut self, mod_id: u64, record: InstalledMod)
        requires
            old(self)@.wf(),
        ensures
            final(self)@.wf(),
            final(self)@.modio_token == old(self)@.modio_token,
            final(self)@.platform == old(self)@.platform,
            final(self)@.installed_mods == seq_install(old(self)@.installed_mods, mod_id, record@),
    {
        let ghost s0 = self@.installed_mods;
        let n = self.installed_mods.len();
        let mut i: usize = 0;
        while i < n
            invariant
                n == self.installed_mods.len(),
                i <= n,
                entries_wf(s0),
                s0 == old(self)@.installed_mods,
                self@.installed_mods == s0,
                self@.modio_token == old(self)@.modio_token,
                self@.platform == old(self)@.platform,
                forall|j: int| 0 <= j < i ==> (#[trigger] s0[j]).0 != mod_id,
            decreases n - i,
        {
            if self.installed_mods[i].0 == mod_id {
                self.installed_mods[i] = (mod_id, record);
                proof {
                    assert(s0[i as int].0 == mod_id);
                    let w = index_of_key(s0, mod_id);
                    assert(s0[w].0 == mod_id);
                    if w != i as int {
                        assert(s0[w].0 != s0[i as int].0);  // from wf
                    }
                    assert(self@.installed_mods =~= seq_install(s0, mod_id, record@));
                    lemma_install_wf(s0, mod_id, record@);
                }
                return ;
            }
            i += 1;
        }
        self.installed_mods.push((mod_id, record));
        proof {
            assert(!has_key(s0, mod_id));
            assert(self@.installed_mods =~= seq_install(s0, mod_id, record@));
            lemma_install_wf(s0, mod_id, record@);
        }
    }

    /// Removes the record of the mod with identifier `mod_id`, if present.
    pub fn remove_mod(&mut self, mod_id: u64)
        requires
            old(self)@.wf(),
        ensures
            final(self)@.wf(),
            final(self)@.modio_token == old(self)@.modio_token,
            final(self)@.platform == old(self)@.platform,
            final(self)@.installed_mods == seq_remove(old(self)@.installed_mods, mod_id),
    {
        let ghost s0 = self@.installed_mods;
        let n = self.installed_mods.len();
        let mut i: usize = 0;
        while i < n
            invariant
                n == self.installed_mods.len(),
                i <= n,
                entries_wf(s0),
                s0 == old(self)@.installed_mods,
                self@.installed_mods == s0,
                self@.modio_token == old(self)@.modio_token,
                self@.platform == old(self)@.platform,
                forall|j: int| 0 <= j < i ==> (#[trigger] s0[j]).0 != mod_id,
            decreases n - i,
        {
            if self.installed_mods[i].0 == mod_id {
                self.installed_mods.remove(i);
                proof {
                    assert(s0[i as int].0 == mod_id);
                    let w = index_of_key(s0, mod_id);
                    assert(s0[w].0 == mod_id);
                    if w != i as int {
                        assert(s0[w].0 != s0[i as int].0);  // from wf
                    }
                    assert(self@.installed_mods =~= seq_remove(s0, mod_id));
                    assert forall|p: int, q: int|
                        0 <= p < q < self@.installed_mods.len() implies (
                    #[trigger] self@.installed_mods[p]).0 != (#[trigger] self@.installed_mods[q]).0 by {
                        let s1 = self@.installed_mods;
                        assert(s1[p] == if p < i as int {
                            s0[p]
                        } else {
                            s0[p + 1]
                        });
                        assert(s1[q] == if q < i as int {
                            s0[q]
                        } else {
                            s0[q + 1]
                        });
                    }
                }
                return ;
            }
            i += 1;
        }
        proof {
            assert(!has_key(s0, mod_id));
            assert(self@.installed_mods =~= seq_remove(s0, mod_id));
        }
    }
}

/// Installing preserves distinctness of identifiers.
pub proof fn lemma_install_wf(s: Seq<(u64, InstalledModView)>, k: u64, v: InstalledModView)
    requires
        entries_wf(s),
    ensures
        entries_wf(seq_install(s, k, v)),
{
    let s1 = seq_install(s, k, v);
    if has_key(s, k) {
        let w = index_of_key(s, k);
        assert(s[w].0 == k);
        assert forall|i: int, j: int| 0 <= i < j < s1.len() implies (#[trigger] s1[i]).0 != (
        #[trigger] s1[j]).0 by {
            assert(s[i].0 != s[j].0);
        }
    } else {
        assert forall|i: int, j: int| 0 <= i < j < s1.len() implies (#[trigger] s1[i]).0 != (
        #[trigger] s1[j]).0 by {
            if j < s.len() {
                assert(s[i].0 != s[j].0);
            } else {
                assert(s1[j].0 == k);
                assert(0 <= i < s.len() && s1[i] == s[i]);
            }
        }
    }
}

/// Installing a record under an identifier that is already recorded replaces
/// the previous record and nothing else: the entry count stays the same,
/// every other entry is untouched, and a second install under the same
/// identifier yields the same table as installing the last record alone.
pub proof fn lemma_reinstall_replaces(
    s: Seq<(u64, InstalledModView)>,
    k: u64,
    v1: InstalledModView,
    v2: InstalledModView,
)
    requires
        entries_wf(s),
    ensures
        seq_install(seq_install(s, k, v1), k, v2) == seq_install(s, k, v2),
        seq_install(seq_install(s, k, v1), k, v2).len() == seq_install(s, k, v1).len(),
        forall|j: int|
            0 <= j < seq_install(s, k, v1).len() && (#[trigger] seq_install(s, k, v1)[j]).0 != k
                ==> seq_install(seq_install(s, k, v1), k, v2)[j] == seq_install(s, k, v1)[j],
{
    lemma_install_wf(s, k, v1);
    let s1 = seq_install(s, k, v1);
    if has_key(s, k) {
        let w = index_of_key(s, k);
        assert(s[w].0 == k);
        assert(s1 == s.update(w, (k, v1)));
        assert(s1[w].0 == k);
        assert(has_key(s1, k));
        let w1 = index_of_key(s1, k);
        assert(s1[w1].0 == k);
        if w1 != w {
            assert(s1[w1].0 != s1[w].0);  // from entries_wf(s1)
        }
        assert(seq_install(s1, k, v2) =~= seq_install(s, k, v2));
    } else {
        let n = s.len() as int;
        assert(s1 == s.push((k, v1)));
        assert(s1[n].0 == k);
        assert(has_key(s1, k));
        let w1 = index_of_key(s1, k);
        assert(s1[w1].0 == k);
        if w1 != n {
            assert(s1[w1].0 != s1[n].0);  // from entries_wf(s1)
        }
        assert(seq_install(s1, k, v2) =~= seq_install(s, k, v2));
    }
}

} // verus!
