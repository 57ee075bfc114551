use vstd::prelude::*;

verus! {

/// What may be done with a file.
#[derive(Debug, Clone, Copy, PartialEq, Eq, Structural)]
pub struct PermMask {
    pub read: bool,
    pub write: bool,
    pub execute: bool,
}

/// What who may do with a file.
#[derive(Debug, Clone, Copy, PartialEq, Eq, Structural)]
pub struct FilePermissions {
    pub user: PermMask,
    pub group: PermMask,
    pub other: PermMask,
}

impl PermMask {
    pub open spec fn includes(self, other: PermMask) -> bool {
        (other.read ==> self.read) && (other.write ==> self.write) && (other.execute
            ==> self.execute)
    }

    pub open spec fn read_only(self) -> bool {
        self.read && !self.write && !self.execute
    }

    pub fn is_superset_of(&self, other: &PermMask) -> (b: bool)
        ensures
            b == self.includes(*other),
    {
        (!other.read || self.read) && (!other.write || self.write) && (!other.execute
            || self.execute)
    }

    pub fn is_read_only(&self) -> (b: bool)
        ensures
            b == self.read_only(),
    {
        self.read && !self.write && !self.execute
    }
}

impl FilePermissions {
    /// Someone may execute the file.
    pub open spec fn executable(self) -> bool {
        self.user.execute || self.group.execute || self.other.execute
    }

    pub fn any_execute(&self) -> (b: bool)
        ensures
            b == self.executable(),
    {
        self.user.execute || self.group.execute || self.other.execute
    }
}

/// What is known of a file and of who wants to use it.
#[derive(Debug, Clone, Copy, PartialEq, Eq, Structural)]
pub struct AccessRequest {
    /// The permissions, where they could be found out.
    pub perms: Option<FilePermissions>,
    /// The one who wants to use the file owns it.
    pub is_owner: bool,
    /// The one who wants to use the file is of its group.
    pub in_group: bool,
    pub is_file: bool,
    pub is_directory: bool,
    /// Nothing may be executed where the file is mounted.
    pub no_exec: bool,
    /// Permissions do not bind the one who wants to use the file.
    pub dac_override: bool,
    /// Permissions do not bind the one who wants to use the file in reading and
    /// searching.
    pub dac_read_search: bool,
}

impl AccessRequest {
    /// The permissions that apply.
    pub open spec fn applying(self) -> PermMask {
        let p = self.perms->Some_0;
        if self.is_owner {
            p.user
        } else if self.in_group {
            p.group
        } else {
            p.other
        }
    }

    /// The access is granted without regard to the permissions.
    pub open spec fn privileged(self, req: PermMask) -> bool {
        ||| self.is_directory && self.dac_override
        ||| self.is_directory && !req.write && self.dac_read_search
        ||| (!req.execute || self.perms->Some_0.executable()) && self.dac_override
        ||| req.read_only() && self.dac_read_search
    }
}

/// The file may be used as `req` says.
pub open spec fn may_use(a: AccessRequest, req: PermMask) -> bool {
    a.perms is Some && !(a.is_file && req.execute && a.no_exec) && (a.applying().includes(req)
        || a.privileged(req))
}

/// Whether a file may be used as `req` says.
pub fn can_access_file(a: &AccessRequest, req: &PermMask) -> (ok: bool)
    ensures
        ok == may_use(*a, *req),
{
    let perms = match a.perms {
        Some(p) => p,
        None => return false,
    };
    let p = if a.is_owner {
        perms.user
    } else if a.in_group {
        perms.group
    } else {
        perms.other
    };
    if a.is_file && req.execute && a.no_exec {
        return false;
    }
    if p.is_superset_of(req) {
        return true;
    }
    if a.is_directory {
        if a.dac_override {
            return true;
        }
        if !req.write && a.dac_read_search {
            return true;
        }
    }
    if (!req.execute || perms.any_execute()) && a.dac_override {
        return true;
    }
    req.is_read_only() && a.dac_read_search
}

} // verus!
