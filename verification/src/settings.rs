//! Settings, and the storage locations that they name.
use crate::database::{DbError, DbState, MainDatabase};
use crate::rows::{
    StorageRec, StorageRow, allocate_id, collect_storage_ids, find_setting, find_storage, next_id, setting_names,
    storage_ids, storage_locations,
};
use crate::text::{lemma_pos, pos, views};
use crate::types::{DbSettingsObj, SettingView};
use vstd::prelude::*;

verus! {

/// The setting called `name` among some.
pub open spec fn setting_in(rows: Seq<SettingView>, name: Seq<char>) -> Option<SettingView> {
    let at = pos(setting_names(rows), name);
    if at < rows.len() {
        Some(rows[at])
    } else {
        None
    }
}

/// Settings after one has been put in, in place of the one with its name.
pub open spec fn setting_put(rows: Seq<SettingView>, setting: SettingView) -> Seq<SettingView> {
    let at = pos(setting_names(rows), setting.name);
    if at < rows.len() {
        rows.update(at, setting)
    } else {
        rows.push(setting)
    }
}

/// The id of the storage location at a place.
pub open spec fn storage_id_of(rows: Seq<StorageRec>, location: Seq<char>) -> Option<u64> {
    let at = pos(storage_locations(rows), location);
    if at < rows.len() {
        Some(rows[at].id)
    } else {
        None
    }
}

/// The storage locations after one has been added, unless it is there.
pub open spec fn storage_added(rows: Seq<StorageRec>, location: Seq<char>) -> Seq<StorageRec> {
    if storage_id_of(rows, location) is Some {
        rows
    } else {
        rows.push(StorageRec { id: next_id(storage_ids(rows)), location })
    }
}

/// The setting that names the place where files are downloaded to.
pub open spec fn file_location_setting() -> SettingView {
    SettingView {
        name: "SYSTEM_file_location"@,
        description: Some("The default location where files are downloaded to."@),
        num: None,
        param: Some("files"@),
    }
}

impl DbState {
    /// A setting: from the cache, else from the table.
    pub open spec fn setting(self, name: Seq<char>) -> Option<SettingView> {
        match setting_in(self.setting_cache, name) {
            Some(setting) => Some(setting),
            None => setting_in(self.settings, name),
        }
    }

    /// The state after a setting has been made, in the table and in the cache.
    pub open spec fn with_setting(self, setting: SettingView) -> DbState {
        DbState {
            settings: setting_put(self.settings, setting),
            setting_cache: setting_put(self.setting_cache, setting),
            ..self
        }
    }

    /// The state after the default place for downloads has been set up, as far as it was not.
    pub open spec fn with_default_location(self) -> DbState {
        let set = if self.setting("SYSTEM_file_location"@) is None {
            self.with_setting(file_location_setting())
        } else {
            self
        };
        DbState { storage: storage_added(set.storage, "files"@), ..set }
    }

    /// The place that files are downloaded to.
    pub open spec fn download_location(self) -> Seq<char> {
        match self.setting("SYSTEM_file_location"@) {
            Some(setting) => match setting.param {
                Some(param) => param,
                None => "files"@,
            },
            None => "files"@,
        }
    }

    /// The state after the place for downloads has been asked for, and set up as far as it was not.
    pub open spec fn with_download_location(self) -> DbState {
        let set = if self.setting("SYSTEM_file_location"@) is None {
            self.with_default_location()
        } else {
            self
        };
        DbState { storage: storage_added(set.storage, self.download_location()), ..set }
    }
}

/// A setting that has been made is what a lookup finds, and other settings stay.
pub proof fn setting_set_then_get(state: DbState, setting: SettingView, name: Seq<char>)
    ensures
        state.with_setting(setting).setting(setting.name) == Some(setting),
        name != setting.name ==> state.with_setting(setting).setting(name) == state.setting(name),
{
    lemma_setting_put(state.settings, setting, name);
    lemma_setting_put(state.setting_cache, setting, name);
}

proof fn lemma_setting_put(rows: Seq<SettingView>, setting: SettingView, name: Seq<char>)
    ensures
        setting_in(setting_put(rows, setting), setting.name) == Some(setting),
        name != setting.name ==> setting_in(setting_put(rows, setting), name) == setting_in(rows, name),
{
    let after = setting_put(rows, setting);
    lemma_pos(setting_names(rows), setting.name);
    lemma_pos(setting_names(after), setting.name);
    lemma_pos(setting_names(rows), name);
    lemma_pos(setting_names(after), name);
    let at = pos(setting_names(rows), setting.name);
    if at < rows.len() {
        assert(setting_names(after) =~= setting_names(rows));
    } else {
        assert(setting_names(after)[rows.len() as int] == setting.name);
        let k = pos(setting_names(after), setting.name);
        if k < rows.len() {
            assert(setting_names(after)[k] == setting_names(rows)[k]);
        }
        if name != setting.name {
            let i = pos(setting_names(rows), name);
            let j = pos(setting_names(after), name);
            if i < rows.len() {
                assert(setting_names(after)[i] == setting_names(rows)[i]);
            }
            if j < rows.len() {
                assert(setting_names(after)[j] == setting_names(rows)[j]);
            }
        }
    }
}

/// A storage location that has been added has an id, and the ids of the others stay.
pub proof fn storage_added_is_found(rows: Seq<StorageRec>, location: Seq<char>, other: Seq<char>)
    ensures
        storage_id_of(storage_added(rows, location), location) is Some,
        storage_id_of(rows, other) is Some ==> storage_id_of(storage_added(rows, location), other) == storage_id_of(
            rows,
            other,
        ),
{
    let after = storage_added(rows, location);
    let keys = storage_locations(rows);
    let after_keys = storage_locations(after);
    lemma_pos(keys, location);
    lemma_pos(after_keys, location);
    lemma_pos(keys, other);
    lemma_pos(after_keys, other);
    if storage_id_of(rows, location) is None {
        assert(after_keys[rows.len() as int] == location);
        let i = pos(keys, other);
        let k = pos(after_keys, other);
        if i < rows.len() {
            assert(after_keys[i] == keys[i]);
            if k < i {
                assert(after_keys[k] == keys[k]);
            }
        }
    }
}

fn put_setting(rows: &mut Vec<DbSettingsObj>, setting: &DbSettingsObj)
    ensures
        views(final(rows)@) == setting_put(views(old(rows)@), setting@),
{
    let at: usize = find_setting(rows, &setting.name);
    if at < rows.len() {
        rows.set(at, setting.copy());
    } else {
        rows.push(setting.copy());
    }
    assert(views(rows@) =~= setting_put(views(old(rows)@), setting@));
}

/// The view of an optional setting.
pub open spec fn opt_setting(setting: Option<DbSettingsObj>) -> Option<SettingView> {
    match setting {
        Some(found) => Some(found@),
        None => None,
    }
}

impl MainDatabase {
    /// A setting, from the cache or from the table.
    pub fn internal_setting_get(&self, name: &str) -> (setting: Option<DbSettingsObj>)
        ensures
            opt_setting(setting) == self@.setting(name@),
    {
        let name = name.to_owned();
        let cached: usize = find_setting(&self.setting_cache, &name);
        if cached < self.setting_cache.len() {
            return Some(self.setting_cache[cached].copy());
        }
        let at: usize = find_setting(&self.settings, &name);
        if at < self.settings.len() {
            Some(self.settings[at].copy())
        } else {
            None
        }
    }

    /// A setting, from the cache or from the table.
    pub fn setting_get_sync(&self, name: &str) -> (setting: Option<DbSettingsObj>)
        ensures
            opt_setting(setting) == self@.setting(name@),
    {
        self.internal_setting_get(name)
    }

    /// Makes a setting, in place of the one with its name.
    pub fn internal_setting_set(&mut self, obj: &DbSettingsObj)
        ensures
            final(self)@ == old(self)@.with_setting(obj@),
    {
        put_setting(&mut self.setting_cache, obj);
        put_setting(&mut self.settings, obj);
    }

    /// Makes a setting, in place of the one with its name. The answer is always `false`.
    pub fn setting_set_sync(&mut self, obj: &DbSettingsObj) -> (answer: bool)
        ensures
            final(self)@ == old(self)@.with_setting(obj@),
            !answer,
    {
        self.internal_setting_set(obj);
        false
    }

    /// Records the version of the database.
    pub fn internal_db_version_set(&mut self, version: u64)
        ensures
            final(self)@ == old(self)@.with_setting(
                (SettingView {
                    name: "SYSTEM_VERSION"@,
                    description: Some("Current version that the DB is on."@),
                    num: Some(version),
                    param: None,
                }),
            ),
    {
        self.internal_setting_set(
            &DbSettingsObj {
                name: "SYSTEM_VERSION".to_owned(),
                description: Some("Current version that the DB is on.".to_owned()),
                num: Some(version),
                param: None,
            },
        );
    }

    /// The id of the storage location at a place.
    pub fn internal_file_storage_location_get(&self, name: &str) -> (id: Option<u64>)
        ensures
            id == storage_id_of(self@.storage, name@),
    {
        let name = name.to_owned();
        let at: usize = find_storage(&self.storage, &name);
        if at < self.storage.len() {
            Some(self.storage[at].id)
        } else {
            None
        }
    }

    /// Adds a storage location; there must be none at the place.
    pub fn internal_file_storage_location_set(&mut self, name: &str) -> (result: Result<(), DbError>)
        ensures
            match result {
                Ok(()) => storage_id_of(old(self)@.storage, name@) is None && final(self)@ == (DbState {
                    storage: storage_added(old(self)@.storage, name@),
                    ..old(self)@
                }),
                Err(error) => error == DbError::Unique && storage_id_of(old(self)@.storage, name@) is Some
                    && final(self)@ == old(self)@,
            },
    {
        if self.internal_file_storage_location_get(name).is_some() {
            return Err(DbError::Unique);
        }
        let ids = collect_storage_ids(&self.storage);
        let id: u64 = allocate_id(&ids);
        let ghost before = self@.storage;
        self.storage.push(StorageRow { id, location: name.to_owned() });
        assert(self@.storage =~= storage_added(before, name@));
        Ok(())
    }

    /// The id of the storage location at a place, which is added where there is none.
    pub fn internal_file_storage_location_get_or_create(&mut self, location_path: &str) -> (id: u64)
        ensures
            final(self)@ == (DbState { storage: storage_added(old(self)@.storage, location_path@), ..old(self)@ }),
            storage_id_of(final(self)@.storage, location_path@) == Some(id),
    {
        if let Some(id) = self.internal_file_storage_location_get(location_path) {
            return id;
        }
        proof {
            storage_added_is_found(self@.storage, location_path@, location_path@);
        }
        let _ = self.internal_file_storage_location_set(location_path);
        self.internal_file_storage_location_get(location_path).unwrap()
    }

    /// Sets the default place for downloads up, as far as it is not.
    pub fn internal_file_download_location_set_default(&mut self)
        ensures
            final(self)@ == old(self)@.with_default_location(),
    {
        if self.internal_setting_get("SYSTEM_file_location").is_none() {
            self.internal_setting_set(
                &DbSettingsObj {
                    name: "SYSTEM_file_location".to_owned(),
                    description: Some("The default location where files are downloaded to.".to_owned()),
                    num: None,
                    param: Some("files".to_owned()),
                },
            );
        }
        self.internal_file_storage_location_get_or_create("files");
    }

    /// The place that files are downloaded to, and its id.
    pub fn internal_file_download_location_get(&mut self) -> (location: (String, u64))
        ensures
            final(self)@ == old(self)@.with_download_location(),
            location.0@ == old(self)@.download_location(),
            storage_id_of(final(self)@.storage, location.0@) == Some(location.1),
    {
        let target_location = match self.internal_setting_get("SYSTEM_file_location") {
            Some(setting) => match setting.param {
                Some(param) => param,
                None => "files".to_owned(),
            },
            None => {
                self.internal_file_download_location_set_default();
                "files".to_owned()
            },
        };
        let path_id: u64 = self.internal_file_storage_location_get_or_create(target_location.as_str());
        (target_location, path_id)
    }

    /// The place that files are downloaded to, and its id.
    pub fn file_download_location_main_sync(&mut self) -> (location: Option<(String, u64)>)
        ensures
            final(self)@ == old(self)@.with_download_location(),
            location matches Some(found) && found.0@ == old(self)@.download_location() && storage_id_of(
                final(self)@.storage,
                found.0@,
            ) == Some(found.1),
    {
        Some(self.internal_file_download_location_get())
    }
}

} // verus!
