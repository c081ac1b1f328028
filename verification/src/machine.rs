//! Observed machine state: which packages are installed, at which
//! version, in which of dpkg's eight states.

use crate::ctrl::{
    build_tok_essential, build_tok_installed_size, build_tok_package, build_tok_status,
    build_tok_version, build_tok_yes, bytes_eq, field_value, lookup_field, tok_essential,
    tok_installed_size, tok_package, tok_st_config_files, tok_st_half_configured,
    tok_st_half_installed, tok_st_installed, tok_st_not_installed, tok_st_triggers_awaited,
    tok_st_triggers_pending, tok_st_unpacked, tok_status, tok_version, tok_yes,
};
use crate::index::{size_field, spec_size_field};
use crate::paragraph::{fields_view, Field, FieldModel};
use crate::text::{all_ascii, bytes_as_chars};
use crate::version::{spec_parse_version, PkgVersion, VersionModel};
use vstd::prelude::*;

verus! {

/// dpkg's package states.
#[derive(Clone, Copy, Debug, PartialEq, Eq, Structural)]
pub enum PkgState {
    NotInstalled,
    ConfigFiles,
    HalfInstalled,
    HalfConfigured,
    Unpacked,
    Installed,
    TriggersAwaited,
    TriggersPending,
}

/// One installed (or half-handled) package as the status database
/// records it.
pub struct PkgStatus {
    pub name: String,
    pub version: PkgVersion,
    pub state: PkgState,
    pub essential: bool,
    pub install_size: u64,
}

/// Model of a status record.
pub struct StatusModel {
    pub name: Seq<char>,
    pub version: VersionModel,
    pub state: PkgState,
    pub essential: bool,
    pub install_size: nat,
}

impl View for PkgStatus {
    type V = StatusModel;

    open spec fn view(&self) -> StatusModel {
        StatusModel {
            name: self.name@,
            version: self.version@,
            state: self.state,
            essential: self.essential,
            install_size: self.install_size as nat,
        }
    }
}

impl Clone for PkgStatus {
    fn clone(&self) -> (res: Self)
        ensures
            res@ == self@,
    {
        PkgStatus {
            name: self.name.clone(),
            version: self.version.clone(),
            state: self.state,
            essential: self.essential,
            install_size: self.install_size,
        }
    }
}

/// The state a status word names.
pub open spec fn state_of_token(t: Seq<u8>) -> Option<PkgState> {
    if t == tok_st_not_installed() {
        Some(PkgState::NotInstalled)
    } else if t == tok_st_config_files() {
        Some(PkgState::ConfigFiles)
    } else if t == tok_st_half_installed() {
        Some(PkgState::HalfInstalled)
    } else if t == tok_st_half_configured() {
        Some(PkgState::HalfConfigured)
    } else if t == tok_st_unpacked() {
        Some(PkgState::Unpacked)
    } else if t == tok_st_installed() {
        Some(PkgState::Installed)
    } else if t == tok_st_triggers_awaited() {
        Some(PkgState::TriggersAwaited)
    } else if t == tok_st_triggers_pending() {
        Some(PkgState::TriggersPending)
    } else {
        None
    }
}

fn exec_state_of_token(t: &Vec<u8>) -> (r: Option<PkgState>)
    ensures
        r == state_of_token(t@),
{
    if bytes_eq(t, &crate::ctrl::build_tok_st_not_installed()) {
        Some(PkgState::NotInstalled)
    } else if bytes_eq(t, &crate::ctrl::build_tok_st_config_files()) {
        Some(PkgState::ConfigFiles)
    } else if bytes_eq(t, &crate::ctrl::build_tok_st_half_installed()) {
        Some(PkgState::HalfInstalled)
    } else if bytes_eq(t, &crate::ctrl::build_tok_st_half_configured()) {
        Some(PkgState::HalfConfigured)
    } else if bytes_eq(t, &crate::ctrl::build_tok_st_unpacked()) {
        Some(PkgState::Unpacked)
    } else if bytes_eq(t, &crate::ctrl::build_tok_st_installed()) {
        Some(PkgState::Installed)
    } else if bytes_eq(t, &crate::ctrl::build_tok_st_triggers_awaited()) {
        Some(PkgState::TriggersAwaited)
    } else if bytes_eq(t, &crate::ctrl::build_tok_st_triggers_pending()) {
        Some(PkgState::TriggersPending)
    } else {
        None
    }
}

/// Index of the last space in `s`, or -1 when there is none.
pub open spec fn last_space(s: Seq<u8>) -> int
    decreases s.len(),
{
    if s.len() == 0 {
        -1
    } else if s.last() == 0x20 {
        s.len() - 1
    } else {
        last_space(s.drop_last())
    }
}

proof fn lemma_last_space_char(s: Seq<u8>, k: int)
    requires
        -1 <= k < s.len(),
        forall|i: int| k < i < s.len() ==> #[trigger] s[i] != 0x20,
        k == -1 || s[k] == 0x20,
    ensures
        last_space(s) == k,
    decreases s.len(),
{
    if s.len() > 0 {
        if k == s.len() - 1 {
        } else {
            assert(s.last() != 0x20);
            assert forall|i: int| k < i < s.drop_last().len() implies #[trigger] s.drop_last()[i]
                != 0x20 by {
                assert(s[i] != 0x20);
            }
            lemma_last_space_char(s.drop_last(), k);
        }
    }
}

/// The state word of a `Status` field value: its last space-separated
/// token (the value is `want flag state`).
pub open spec fn status_word(v: Seq<u8>) -> Seq<u8> {
    if last_space(v) >= 0 {
        v.skip(last_space(v) + 1)
    } else {
        v
    }
}

/// Extract the last space-separated token of a field value.
#[verifier::loop_isolation(false)]
fn exec_status_word(v: &Vec<u8>) -> (r: Vec<u8>)
    ensures
        r@ == status_word(v@),
{
    let len = v.len();
    let mut scan: usize = len;
    let mut found = false;
    let mut start: usize = 0;
    while scan > 0 && !found
        invariant
            0 <= scan <= len,
            found ==> 0 <= scan < len && v@[scan as int] == 0x20 && start == scan + 1,
            found ==> forall|m: int| scan < m < len ==> #[trigger] v@[m] != 0x20,
            !found ==> start == 0 && forall|m: int| scan <= m < len ==> #[trigger] v@[m] != 0x20,
        decreases scan,
    {
        scan = scan - 1;
        if v[scan] == 0x20 {
            found = true;
            start = scan + 1;
        }
    }
    proof {
        if found {
            lemma_last_space_char(v@, scan as int);
        } else {
            lemma_last_space_char(v@, -1);
        }
    }
    let mut out: Vec<u8> = Vec::new();
    let mut m: usize = start;
    while m < len
        invariant
            start <= m <= len,
            out@ == v@.subrange(start as int, m as int),
        decreases len - m,
    {
        out.push(v[m]);
        proof {
            assert(out@ =~= v@.subrange(start as int, m + 1));
        }
        m = m + 1;
    }
    proof {
        assert(v@.subrange(start as int, len as int) =~= status_word(v@));
    }
    out
}

/// What one status paragraph describes, or `None` when a required field
/// is missing or malformed.
pub open spec fn parse_status_fields(fs: Seq<FieldModel>) -> Option<StatusModel> {
    match field_value(fs, tok_package()) {
        Option::None => None,
        Option::Some(nb) => {
            if !all_ascii(nb) {
                None
            } else {
                match field_value(fs, tok_version()) {
                    Option::None => None,
                    Option::Some(vb) => match spec_parse_version(vb) {
                        Option::None => None,
                        Option::Some(vm) => match field_value(fs, tok_status()) {
                            Option::None => None,
                            Option::Some(sb) => match state_of_token(status_word(sb)) {
                                Option::None => None,
                                Option::Some(st) => {
                                    let iso = match field_value(fs, tok_installed_size()) {
                                        Option::None => Some(0nat),
                                        Option::Some(v) => spec_size_field(v),
                                    };
                                    match iso {
                                        Option::None => None,
                                        Option::Some(isz) => Some(
                                            StatusModel {
                                                name: bytes_as_chars(nb),
                                                version: vm,
                                                state: st,
                                                essential: field_value(fs, tok_essential())
                                                    == Some(tok_yes()),
                                                install_size: isz,
                                            },
                                        ),
                                    }
                                },
                            },
                        },
                    },
                }
            }
        },
    }
}

/// Read one status paragraph.
#[verifier::loop_isolation(false)]
pub fn parse_status_paragraph(fields: &Vec<Field>) -> (r: Option<PkgStatus>)
    ensures
        match r {
            Some(st) => parse_status_fields(fields_view(fields@)) == Some(st@),
            None => parse_status_fields(fields_view(fields@)) is None,
        },
{
    let nb = match lookup_field(fields, &build_tok_package()) {
        Some(v) => v,
        None => {
            return None;
        },
    };
    let mut i: usize = 0;
    while i < nb.len()
        invariant
            0 <= i <= nb@.len(),
            forall|m: int| 0 <= m < i ==> #[trigger] nb@[m] < 0x80,
        decreases nb@.len() - i,
    {
        if nb[i] >= 0x80 {
            proof {
                let fs = fields_view(fields@);
                assert(!(nb@[i as int] < 0x80));
                assert(!all_ascii(nb@));
                assert(field_value(fs, tok_package()) == Some(nb@));
                assert(field_value(fs, tok_package()).unwrap() == nb@);
                assert(!all_ascii(field_value(fs, tok_package()).unwrap()));
                assert(parse_status_fields(fs) is None);
            }
            return None;
        }
        i = i + 1;
    }
    let vb = match lookup_field(fields, &build_tok_version()) {
        Some(v) => v,
        None => {
            return None;
        },
    };
    let version = match PkgVersion::parse_bytes(&vb) {
        Ok(v) => v,
        Err(_) => {
            return None;
        },
    };
    let sb = match lookup_field(fields, &build_tok_status()) {
        Some(v) => v,
        None => {
            return None;
        },
    };
    let word = exec_status_word(&sb);
    let state = match exec_state_of_token(&word) {
        Some(s) => s,
        None => {
            return None;
        },
    };
    let essential = match lookup_field(fields, &build_tok_essential()) {
        Some(v) => bytes_eq(&v, &build_tok_yes()),
        None => false,
    };
    let install_size = match lookup_field(fields, &build_tok_installed_size()) {
        Some(v) => match size_field(&v) {
            Some(n) => n,
            None => {
                return None;
            },
        },
        None => 0,
    };
    let name = crate::text::ascii_to_string(&nb);
    Some(PkgStatus { name, version, state, essential, install_size })
}

/// Model of the machine's status list.
pub open spec fn statuses_view(s: Seq<PkgStatus>) -> Seq<StatusModel> {
    s.map(|_i: int, p: PkgStatus| p@)
}

/// All status names are pairwise distinct.
pub open spec fn status_names_unique(s: Seq<StatusModel>) -> bool {
    forall|i: int, j: int| 0 <= i < j < s.len() ==> #[trigger] s[i].name != #[trigger] s[j].name
}

/// First status record carrying `name`.
pub open spec fn status_of(ms: Seq<StatusModel>, name: Seq<char>) -> Option<StatusModel>
    decreases ms.len(),
{
    if ms.len() == 0 {
        Option::<StatusModel>::None
    } else if ms[0].name == name {
        Option::Some(ms[0])
    } else {
        status_of(ms.skip(1), name)
    }
}

/// The machine's observed package states, one record per name.
pub struct MachineStatus {
    pub pkgs: Vec<PkgStatus>,
}

impl View for MachineStatus {
    type V = Seq<StatusModel>;

    open spec fn view(&self) -> Seq<StatusModel> {
        statuses_view(self.pkgs@)
    }
}

/// The status database is malformed.
#[derive(Clone, Copy, Debug, PartialEq, Eq, Structural)]
pub enum StateError {
    /// A paragraph misses a required field, or a field is malformed,
    /// or a state word is unknown.
    BadParagraph,
    /// Two paragraphs name the same package.
    DuplicateName,
}

impl MachineStatus {
    /// Read the whole status database from its parsed paragraphs.
    /// Every paragraph must describe one package, states drawn from the
    /// eight known words, and no name may repeat.
    #[verifier::loop_isolation(false)]
    pub fn from_paragraphs(paragraphs: &Vec<Vec<Field>>) -> (r: Result<MachineStatus, StateError>)
        ensures
            match r {
                Ok(ms) => {
                    &&& ms@.len() == paragraphs@.len()
                    &&& forall|i: int|
                        0 <= i < paragraphs@.len() ==> parse_status_fields(
                            fields_view(#[trigger] paragraphs@[i]@),
                        ) == Some(ms@[i])
                    &&& status_names_unique(ms@)
                },
                Err(StateError::BadParagraph) => exists|i: int|
                    0 <= i < paragraphs@.len() && parse_status_fields(
                        fields_view(#[trigger] paragraphs@[i]@),
                    ) is None,
                Err(StateError::DuplicateName) => {
                    &&& forall|i: int|
                        0 <= i < paragraphs@.len() ==> parse_status_fields(
                            fields_view(#[trigger] paragraphs@[i]@),
                        ) is Some
                    &&& exists|i: int, j: int|
                        0 <= i < j < paragraphs@.len() && parse_status_fields(
                            fields_view(#[trigger] paragraphs@[i]@),
                        ).unwrap().name == parse_status_fields(
                            fields_view(#[trigger] paragraphs@[j]@),
                        ).unwrap().name
                },
            },
    {
        let mut pkgs: Vec<PkgStatus> = Vec::new();
        let n = paragraphs.len();
        let mut i: usize = 0;
        while i < n
            invariant
                0 <= i <= n,
                pkgs@.len() == i,
                forall|j: int|
                    0 <= j < i ==> parse_status_fields(fields_view(#[trigger] paragraphs@[j]@))
                        == Some(statuses_view(pkgs@)[j]),
            decreases n - i,
        {
            match parse_status_paragraph(&paragraphs[i]) {
                Some(st) => {
                    pkgs.push(st);
                },
                None => {
                    return Err(StateError::BadParagraph);
                },
            }
            i = i + 1;
        }
        // refuse duplicated names
        let mut a: usize = 0;
        while a < pkgs.len()
            invariant
                0 <= a <= pkgs@.len(),
                pkgs@.len() == paragraphs@.len(),
                forall|j: int|
                    0 <= j < pkgs@.len() ==> parse_status_fields(
                        fields_view(#[trigger] paragraphs@[j]@),
                    ) == Some(statuses_view(pkgs@)[j]),
                forall|x: int, y: int|
                    0 <= x < y < pkgs@.len() && x < a ==> #[trigger] statuses_view(pkgs@)[x].name
                        != #[trigger] statuses_view(pkgs@)[y].name,
            decreases pkgs@.len() - a,
        {
            let mut b: usize = a + 1;
            while b < pkgs.len()
                invariant
                    0 <= a < b <= pkgs@.len(),
                    pkgs@.len() == paragraphs@.len(),
                    forall|j: int|
                        0 <= j < pkgs@.len() ==> parse_status_fields(
                            fields_view(#[trigger] paragraphs@[j]@),
                        ) == Some(statuses_view(pkgs@)[j]),
                    forall|y: int|
                        a < y < b ==> statuses_view(pkgs@)[a as int].name != #[trigger] statuses_view(
                            pkgs@,
                        )[y].name,
                decreases pkgs@.len() - b,
            {
                if crate::text::str_eq(pkgs[a].name.as_str(), pkgs[b].name.as_str()) {
                    proof {
                        assert(parse_status_fields(
                            fields_view(paragraphs@[a as int]@),
                        ).unwrap().name == parse_status_fields(
                            fields_view(paragraphs@[b as int]@),
                        ).unwrap().name);
                    }
                    return Err(StateError::DuplicateName);
                }
                b = b + 1;
            }
            a = a + 1;
        }
        Ok(MachineStatus { pkgs })
    }

    /// The record for `name`, if the machine knows one.
    #[verifier::loop_isolation(false)]
    pub fn get(&self, name: &str) -> (r: Option<&PkgStatus>)
        ensures
            match r {
                Some(st) => status_of(self@, name@) == Some(st@),
                None => status_of(self@, name@) is None,
            },
    {
        let n = self.pkgs.len();
        let mut i: usize = 0;
        proof {
            assert(self@.skip(0) =~= self@);
        }
        while i < n
            invariant
                0 <= i <= n,
                status_of(self@, name@) == status_of(self@.skip(i as int), name@),
            decreases n - i,
        {
            proof {
                assert(self@.skip(i as int)[0] == self@[i as int]);
                assert(self@.skip(i as int).skip(1) =~= self@.skip(i + 1));
            }
            if crate::text::str_eq(self.pkgs[i].name.as_str(), name) {
                return Some(&self.pkgs[i]);
            }
            i = i + 1;
        }
        None
    }
}

} // verus!
