//! The editing session: the lists of both scopes, the privilege level of the
//! process, and the decisions of the save protocol.
//!
//! The session never touches the registry. It says what is to be written,
//! the caller writes, and the session is told how the write ended.

use crate::codec::{
    decode_spec, encode_spec, encode_utf16_reg, join_path, join_spec, lemma_split_last_piece,
    split_spec,
};
use crate::encoding::{encoding_for, select_encoding, ValueEncoding};
use crate::expand::Environment;
use crate::normalize::{dedupe_spec, stably_sorted};
use crate::registry::{read_reg_value, RawValue, RegistryError, Scope};
use crate::store::{
    entries_moved_down, entries_moved_up, filter_active, marks_moved_down, marks_moved_up,
    none_marked, unmarked, MoveOutcome, PathStore,
};
use crate::text::{texts, trim};
use vstd::prelude::*;

verus! {

/// Why a save was refused before any write.
#[derive(Clone, Copy, Debug, PartialEq, Eq, Structural)]
pub enum SaveError {
    /// The System value can only be written by an elevated process.
    ElevationRequired,
}

/// One registry write that a save asks for.
#[derive(Clone, Debug, PartialEq, Eq)]
pub struct WritePlan {
    /// The scope whose value is written.
    pub scope: Scope,
    /// The `PATH` text.
    pub text: String,
    /// The raw value: the text as NUL-terminated little-endian UTF-16.
    pub bytes: Vec<u8>,
    /// The string subtype to write the value as.
    pub encoding: ValueEncoding,
}

/// What has to happen after a write went through.
#[derive(Clone, Debug, PartialEq, Eq)]
pub enum Effect {
    /// Tell the other processes that the environment changed.
    Broadcast,
    /// Set the `PATH` variable of this process to the given text.
    SetProcessPath(String),
}

/// What a request to save both scopes asks for.
#[derive(Clone, Debug, PartialEq, Eq)]
pub struct SaveAllPlan {
    /// The writes to make, in order; the first that fails ends the save.
    pub writes: Vec<WritePlan>,
    /// Whether the System value is left out because the process is not
    /// elevated.
    pub system_skipped: bool,
}

/// Whether a process may save a scope: the User scope always, the System
/// scope only when elevated.
pub open spec fn save_allowed(scope: Scope, elevated: bool) -> bool {
    scope == Scope::User || elevated
}

/// The `PATH` text of this process after a save of `scope`: the saved text
/// after a User save, and the User entries followed by the System entries
/// after a System save.
pub open spec fn process_path(
    scope: Scope,
    saved: Seq<char>,
    user: Seq<Seq<char>>,
    system: Seq<Seq<char>>,
) -> Seq<char> {
    match scope {
        Scope::User => saved,
        Scope::System => join_spec(user + system),
    }
}

/// Whether `effects` is what follows a write that went through: exactly one
/// broadcast, and then `path` as the new `PATH` of this process.
pub open spec fn effects_of_save(effects: Seq<Effect>, path: Seq<char>) -> bool {
    &&& effects.len() == 2
    &&& effects[0] is Broadcast
    &&& effects[1] matches Effect::SetProcessPath(p) && p@ == path
}

impl WritePlan {
    /// Whether this is the write that saves `store` as the value of `scope`.
    pub open spec fn saves(&self, scope: Scope, store: PathStore) -> bool {
        &&& self.scope == scope
        &&& self.text@ == join_spec(store.entries())
        &&& self.bytes@ == encode_spec(self.text@)
        &&& self.encoding == encoding_for(self.text@, store.encoding_of())
    }
}

/// The lists of both scopes and the privilege level of the process.
pub struct Editor {
    user: PathStore,
    system: PathStore,
    elevated: bool,
}

impl Editor {
    /// The list of a scope.
    pub closed spec fn store_of(&self, scope: Scope) -> PathStore {
        match scope {
            Scope::User => self.user,
            Scope::System => self.system,
        }
    }

    /// Whether the process is elevated.
    pub closed spec fn is_elevated(&self) -> bool {
        self.elevated
    }

    /// The invariant of the session: both lists are well-formed.
    pub closed spec fn wf(&self) -> bool {
        self.user.wf() && self.system.wf()
    }

    /// Whether `after` is a well-formed session that differs from this one
    /// in the list of `scope` at most.
    pub open spec fn changed_only(self, after: Editor, scope: Scope) -> bool {
        &&& after.wf()
        &&& after.is_elevated() == self.is_elevated()
        &&& forall|s: Scope| s != scope ==> after.store_of(s) == self.store_of(s)
    }

    /// What `wf` says of the two lists.
    pub proof fn lemma_wf(&self)
        requires
            self.wf(),
        ensures
            self.store_of(Scope::User).wf(),
            self.store_of(Scope::System).wf(),
    {
    }

    /// The session at startup, from what the reads of the two values found
    /// and the privilege level of the process.
    pub fn new(user: Option<RawValue>, system: Option<RawValue>, elevated: bool) -> (editor:
        Editor)
        ensures
            editor.wf(),
            editor.is_elevated() == elevated,
            user is None ==> editor.store_of(Scope::User).entries().len() == 0 && editor.store_of(
                Scope::User,
            ).encoding_of() == ValueEncoding::Plain,
            system is None ==> editor.store_of(Scope::System).entries().len() == 0
                && editor.store_of(Scope::System).encoding_of() == ValueEncoding::Plain,
            user matches Some(raw) ==> editor.store_of(Scope::User).entries()
                == split_spec(decode_spec(raw.bytes@))
                && editor.store_of(Scope::User).encoding_of() == ValueEncoding::of_code(
                raw.type_code,
            ),
            system matches Some(raw) ==> editor.store_of(Scope::System).entries()
                == split_spec(decode_spec(raw.bytes@))
                && editor.store_of(Scope::System).encoding_of() == ValueEncoding::of_code(
                raw.type_code,
            ),
            none_marked(editor.store_of(Scope::User).marks()),
            none_marked(editor.store_of(Scope::System).marks()),
            editor.store_of(Scope::User).filter_text().len() == 0,
            editor.store_of(Scope::System).filter_text().len() == 0,
    {
        let (user_raw, user_type) = read_reg_value(user);
        let (system_raw, system_type) = read_reg_value(system);
        proof {
            lemma_split_last_piece(Seq::<char>::empty(), 0);
            assert(Seq::<char>::empty().skip(0) =~= Seq::<char>::empty());
            assert(split_spec(Seq::<char>::empty()).len() == 0);
            if user is None {
                assert(user_raw@ =~= Seq::<char>::empty());
            }
            if system is None {
                assert(system_raw@ =~= Seq::<char>::empty());
            }
        }
        Editor {
            user: PathStore::new(user_raw, user_type),
            system: PathStore::new(system_raw, system_type),
            elevated,
        }
    }

    /// Whether the process is elevated.
    pub fn elevated(&self) -> (b: bool)
        ensures
            b == self.is_elevated(),
    {
        self.elevated
    }

    /// The list of a scope.
    pub fn store(&self, scope: Scope) -> (store: &PathStore)
        ensures
            *store == self.store_of(scope),
    {
        match scope {
            Scope::User => &self.user,
            Scope::System => &self.system,
        }
    }

    /// Replaces the filter text of a scope.
    pub fn set_filter(&mut self, scope: Scope, filter: String)
        requires
            old(self).wf(),
        ensures
            old(self).changed_only(*final(self), scope),
            old(self).store_of(scope).filtered(final(self).store_of(scope), filter@),
    {
        match scope {
            Scope::User => self.user.set_filter(filter),
            Scope::System => self.system.set_filter(filter),
        }
    }

    /// Handles a click on an entry of a scope: an additive click turns the
    /// selection of the entry over, a plain click selects it alone.
    pub fn click(&mut self, scope: Scope, idx: usize, additive: bool)
        requires
            old(self).wf(),
        ensures
            old(self).changed_only(*final(self), scope),
            old(self).store_of(scope).clicked(final(self).store_of(scope), idx, additive),
    {
        match scope {
            Scope::User => self.user.click(idx, additive),
            Scope::System => self.system.click(idx, additive),
        }
    }

    /// Adds `text`, trimmed, at the end of a scope's list, unless it is then
    /// empty. Tells whether an entry was added.
    pub fn add(&mut self, scope: Scope, text: &str) -> (added: bool)
        requires
            old(self).wf(),
        ensures
            old(self).changed_only(*final(self), scope),
            old(self).store_of(scope).added(final(self).store_of(scope), text@, added),
    {
        match scope {
            Scope::User => self.user.add(text),
            Scope::System => self.system.add(text),
        }
    }

    /// Removes the selected entries of a scope and clears its selection.
    /// Returns the number of entries removed.
    pub fn remove_selected(&mut self, scope: Scope) -> (removed: usize)
        requires
            old(self).wf(),
        ensures
            old(self).changed_only(*final(self), scope),
            old(self).store_of(scope).removed(final(self).store_of(scope), removed),
    {
        match scope {
            Scope::User => self.user.remove_selected(),
            Scope::System => self.system.remove_selected(),
        }
    }

    /// Moves the selected entries of a scope by one position, up if
    /// `direction` is negative and down otherwise. While the scope's filter
    /// is active the request is refused and nothing changes.
    pub fn move_selected(&mut self, scope: Scope, direction: i32) -> (outcome: MoveOutcome)
        requires
            old(self).wf(),
        ensures
            old(self).changed_only(*final(self), scope),
            old(self).store_of(scope).moved(final(self).store_of(scope), direction, outcome),
    {
        match scope {
            Scope::User => self.user.move_selected(direction),
            Scope::System => self.system.move_selected(direction),
        }
    }

    /// Removes the duplicates of a scope, the first of each kept, and clears
    /// its selection. Returns the number of entries removed.
    pub fn apply_dedupe(&mut self, scope: Scope, env: &Environment) -> (removed: usize)
        requires
            old(self).wf(),
        ensures
            old(self).changed_only(*final(self), scope),
            old(self).store_of(scope).deduped(final(self).store_of(scope), env@, removed),
    {
        match scope {
            Scope::User => self.user.apply_dedupe(env),
            Scope::System => self.system.apply_dedupe(env),
        }
    }

    /// Sorts the list of a scope by lowercase text and clears its selection.
    pub fn apply_sort(&mut self, scope: Scope)
        requires
            old(self).wf(),
        ensures
            old(self).changed_only(*final(self), scope),
            old(self).store_of(scope).sorted(final(self).store_of(scope)),
    {
        match scope {
            Scope::User => self.user.apply_sort(),
            Scope::System => self.system.apply_sort(),
        }
    }

    /// The write that saves a scope as it stands: the joined text, its raw
    /// form, and the encoding that the text calls for.
    pub fn write_path(&self, scope: Scope) -> (plan: WritePlan)
        ensures
            plan.saves(scope, self.store_of(scope)),
            plan.encoding != ValueEncoding::Other,
    {
        let store = self.store(scope);
        let text = join_path(store.parts().as_slice());
        let encoding = select_encoding(text.as_str(), store.encoding());
        let bytes = encode_utf16_reg(text.as_str());
        WritePlan { scope, text, bytes, encoding }
    }

    /// Decides a request to save one scope. Saving the System scope from a
    /// process that is not elevated is refused, before anything is written;
    /// every other request gets its write.
    pub fn save_one(&self, scope: Scope) -> (r: Result<WritePlan, SaveError>)
        ensures
            r is Ok <==> save_allowed(scope, self.is_elevated()),
            r matches Ok(plan) ==> plan.saves(scope, self.store_of(scope)) && plan.encoding
                != ValueEncoding::Other,
            r matches Err(e) ==> e == SaveError::ElevationRequired,
    {
        if scope.needs_elevation() && !self.elevated {
            return Err(SaveError::ElevationRequired);
        }
        Ok(self.write_path(scope))
    }

    /// Decides a request to save both scopes: the User value is written
    /// first, and the System value after it if the process is elevated.
    /// Without elevation the System value is skipped, which is no failure.
    pub fn save_all(&self) -> (plan: SaveAllPlan)
        ensures
            plan.system_skipped == !self.is_elevated(),
            plan.writes@.len() == if self.is_elevated() {
                2int
            } else {
                1int
            },
            plan.writes@[0].saves(Scope::User, self.store_of(Scope::User)),
            self.is_elevated() ==> plan.writes@[1].saves(
                Scope::System,
                self.store_of(Scope::System),
            ),
    {
        let mut writes: Vec<WritePlan> = Vec::new();
        writes.push(self.write_path(Scope::User));
        if self.elevated {
            writes.push(self.write_path(Scope::System));
        }
        SaveAllPlan { writes, system_skipped: !self.elevated }
    }

    /// Takes note of how a write ended. After a failure nothing changes and
    /// the error is handed back. After a success the scope remembers the
    /// encoding it was written with, and the effects are: one broadcast, then
    /// the new `PATH` of this process.
    pub fn write_finished(
        &mut self,
        plan: &WritePlan,
        outcome: Result<(), RegistryError>,
    ) -> (r: Result<Vec<Effect>, RegistryError>)
        requires
            old(self).wf(),
        ensures
            old(self).changed_only(*final(self), plan.scope),
            outcome matches Err(e) ==> r == Err::<Vec<Effect>, RegistryError>(e),
            outcome is Err ==> final(self).store_of(plan.scope) == old(self).store_of(plan.scope),
            outcome is Ok ==> old(self).store_of(plan.scope).encoded(
                final(self).store_of(plan.scope),
                plan.encoding,
            ),
            outcome is Ok ==> (r matches Ok(effects) && effects_of_save(
                effects@,
                process_path(
                    plan.scope,
                    plan.text@,
                    old(self).store_of(Scope::User).entries(),
                    old(self).store_of(Scope::System).entries(),
                ),
            )),
    {
        match outcome {
            Err(e) => Err(e),
            Ok(()) => {
                match plan.scope {
                    Scope::User => self.user.set_encoding(plan.encoding),
                    Scope::System => self.system.set_encoding(plan.encoding),
                }
                let path = match plan.scope {
                    Scope::User => plan.text.clone(),
                    Scope::System => {
                        let merged = merged_parts(self.user.parts(), self.system.parts());
                        join_path(merged.as_slice())
                    },
                };
                let mut effects: Vec<Effect> = Vec::new();
                effects.push(Effect::Broadcast);
                effects.push(Effect::SetProcessPath(path));
                Ok(effects)
            },
        }
    }
}

/// The entries of `first` followed by those of `second`.
fn merged_parts(first: &Vec<String>, second: &Vec<String>) -> (all: Vec<String>)
    ensures
        texts(all@) == texts(first@) + texts(second@),
{
    let mut all: Vec<String> = Vec::new();
    let mut i: usize = 0;
    proof {
        assert(texts(all@) =~= texts(first@).take(0));
    }
    while i < first.len()
        invariant
            i <= first.len(),
            texts(all@) == texts(first@).take(i as int),
        decreases first.len() - i,
    {
        let ghost before = texts(all@);
        all.push(first[i].clone());
        proof {
            assert(texts(all@) =~= before.push(first@[i as int]@));
            assert(texts(first@).take(i + 1) =~= before.push(first@[i as int]@));
        }
        i += 1;
    }
    let mut j: usize = 0;
    proof {
        assert(texts(first@).take(first.len() as int) =~= texts(first@));
        assert(texts(first@) + texts(second@).take(0) =~= texts(first@));
    }
    while j < second.len()
        invariant
            j <= second.len(),
            texts(all@) == texts(first@) + texts(second@).take(j as int),
        decreases second.len() - j,
    {
        let ghost before = texts(all@);
        all.push(second[j].clone());
        proof {
            assert(texts(all@) =~= before.push(second@[j as int]@));
            assert(texts(first@) + texts(second@).take(j + 1) =~= before.push(
                second@[j as int]@,
            ));
        }
        j += 1;
    }
    proof {
        assert(texts(second@).take(second.len() as int) =~= texts(second@));
    }
    all
}

/// Saving the User scope is allowed whatever the privilege level, and saving
/// the System scope exactly when the process is elevated.
pub proof fn lemma_save_allowed(elevated: bool)
    ensures
        save_allowed(Scope::User, elevated),
        save_allowed(Scope::System, elevated) == elevated,
{
}

} // verus!
