use vstd::prelude::*;

use crate::layout::Transform;
use crate::partial::{
    ConfigurationProperty, ImmutableProperty, PartialHead, PartialHeadState, PartialMode,
    PartialModeState,
};

verus! {

/// What identifies a head: its transient name and description, and the hardware
/// fingerprint (make, model, serial number) where the head reports one.
#[derive(Debug, PartialEq, Eq, Hash)]
pub struct HeadIdentity {
    pub name: String,
    pub description: String,
    pub make: Option<String>,
    pub model: Option<String>,
    pub serial_number: Option<String>,
}

/// The characters of an optional string.
pub open spec fn opt_chars(o: Option<String>) -> Option<Seq<char>> {
    match o {
        Some(s) => Some(s@),
        None => None,
    }
}

pub type IdentityView = (Seq<char>, Seq<char>, Option<Seq<char>>, Option<Seq<char>>, Option<Seq<char>>);

/// The hardware fingerprint: make, model and serial number.
pub type Fingerprint = (Option<Seq<char>>, Option<Seq<char>>, Option<Seq<char>>);

impl View for HeadIdentity {
    type V = IdentityView;

    open spec fn view(&self) -> IdentityView {
        (
            self.name@,
            self.description@,
            opt_chars(self.make),
            opt_chars(self.model),
            opt_chars(self.serial_number),
        )
    }
}

pub open spec fn fingerprint_of(v: IdentityView) -> Fingerprint {
    (v.2, v.3, v.4)
}

/// Whether an identity carries both a make and a model.
pub open spec fn has_make_and_model(v: IdentityView) -> bool {
    v.2.is_some() && v.3.is_some()
}

fn clone_opt_string(o: &Option<String>) -> (r: Option<String>)
    ensures
        r == *o,
{
    match o {
        Some(s) => Some(s.clone()),
        None => None,
    }
}

fn opt_string_eq(a: &Option<String>, b: &Option<String>) -> (r: bool)
    ensures
        r == (opt_chars(*a) == opt_chars(*b)),
{
    match a {
        Some(x) => match b {
            Some(y) => x.eq(y),
            None => false,
        },
        None => b.is_none(),
    }
}

impl Clone for HeadIdentity {
    fn clone(&self) -> (r: HeadIdentity)
        ensures
            r == *self,
    {
        HeadIdentity {
            name: self.name.clone(),
            description: self.description.clone(),
            make: clone_opt_string(&self.make),
            model: clone_opt_string(&self.model),
            serial_number: clone_opt_string(&self.serial_number),
        }
    }
}

impl HeadIdentity {
    /// Whether the two identities are equal in every field.
    pub fn same_as(&self, other: &HeadIdentity) -> (r: bool)
        ensures
            r == (self@ == other@),
    {
        self.name == other.name && self.description == other.description && opt_string_eq(
            &self.make,
            &other.make,
        ) && opt_string_eq(&self.model, &other.model) && opt_string_eq(
            &self.serial_number,
            &other.serial_number,
        )
    }

    /// Whether the two identities have the same make, model and serial number.
    pub fn same_fingerprint(&self, other: &HeadIdentity) -> (r: bool)
        ensures
            r == (fingerprint_of(self@) == fingerprint_of(other@)),
    {
        opt_string_eq(&self.make, &other.make) && opt_string_eq(&self.model, &other.model)
            && opt_string_eq(&self.serial_number, &other.serial_number)
    }
}

/// A display mode: its size in pixels and its refresh rate in mHz, if known.
#[derive(Clone, Copy, Debug, Eq, Hash)]
pub struct Mode {
    pub size: (u32, u32),
    pub refresh: Option<u32>,
}

impl PartialEq for Mode {
    fn eq(&self, other: &Mode) -> (r: bool)
        ensures
            r == (*self == *other),
    {
        let same_refresh = match (self.refresh, other.refresh) {
            (Some(a), Some(b)) => a == b,
            (None, None) => true,
            _ => false,
        };
        self.size.0 == other.size.0 && self.size.1 == other.size.1 && same_refresh
    }
}

impl vstd::std_specs::cmp::PartialEqSpecImpl for Mode {
    open spec fn obeys_eq_spec() -> bool {
        true
    }

    open spec fn eq_spec(&self, other: &Mode) -> bool {
        *self == *other
    }
}

#[derive(Clone, Copy, Debug, PartialEq, Eq, Structural)]
pub enum CreateModeError {
    MissingSize,
}

impl Mode {
    /// Finalizes a partial mode; the size is required.
    pub fn from_partial(value: PartialMode) -> (r: Result<Mode, CreateModeError>)
        ensures
            r == (match value.size {
                Some(size) => Ok(Mode { size, refresh: value.refresh }),
                None => Err(CreateModeError::MissingSize),
            }),
    {
        match value.size {
            Some(size) => Ok(Mode { size, refresh: value.refresh }),
            None => Err(CreateModeError::MissingSize),
        }
    }
}

/// A committed mode and the protocol id of its object.
#[derive(Clone, Copy, Debug, PartialEq, Eq)]
pub struct ModeState {
    pub id: u32,
    pub mode: Mode,
}

impl ModeState {
    pub fn from_partial(value: PartialModeState) -> (r: Result<ModeState, CreateModeError>)
        ensures
            r == (match Mode::from_partial_spec(value.mode) {
                Ok(mode) => Ok(ModeState { id: value.id, mode }),
                Err(e) => Err(e),
            }),
    {
        match Mode::from_partial(value.mode) {
            Ok(mode) => Ok(ModeState { id: value.id, mode }),
            Err(e) => Err(e),
        }
    }
}

impl Mode {
    pub open spec fn from_partial_spec(value: PartialMode) -> Result<Mode, CreateModeError> {
        match value.size {
            Some(size) => Ok(Mode { size, refresh: value.refresh }),
            None => Err(CreateModeError::MissingSize),
        }
    }
}

/// The mode that the last committed mode with id `id` in `modes` holds.
pub open spec fn mode_of(modes: Seq<ModeState>, id: u32) -> Option<Mode>
    decreases modes.len(),
{
    if modes.len() == 0 {
        None
    } else if modes.last().id == id {
        Some(modes.last().mode)
    } else {
        mode_of(modes.drop_last(), id)
    }
}

/// Looks up the committed mode with protocol id `id`.
pub fn find_mode(modes: &Vec<ModeState>, id: u32) -> (r: Option<Mode>)
    ensures
        r == mode_of(modes@, id),
{
    let mut found: Option<Mode> = None;
    let mut i: usize = 0;
    while i < modes.len()
        invariant
            i <= modes@.len(),
            found == mode_of(modes@.subrange(0, i as int), id),
        decreases modes@.len() - i,
    {
        assert(modes@.subrange(0, i as int + 1).drop_last() =~= modes@.subrange(0, i as int));
        if modes[i].id == id {
            found = Some(modes[i].mode);
        }
        i += 1;
    }
    assert(modes@.subrange(0, modes@.len() as int) =~= modes@);
    found
}

/// The entries of a mode table that do not have the mode value `mode`.
pub open spec fn without_mode(s: Seq<(Mode, u32)>, mode: Mode) -> Seq<(Mode, u32)>
    decreases s.len(),
{
    if s.len() == 0 {
        s
    } else {
        let rest = without_mode(s.drop_last(), mode);
        if s.last().0 == mode {
            rest
        } else {
            rest.push(s.last())
        }
    }
}

/// A mode table with `mode` mapped to `id`, replacing the previous entry of `mode`.
pub open spec fn insert_mode(s: Seq<(Mode, u32)>, mode: Mode, id: u32) -> Seq<(Mode, u32)> {
    without_mode(s, mode).push((mode, id))
}

/// The handle that a mode table maps `mode` to.
pub open spec fn mode_handle(s: Seq<(Mode, u32)>, mode: Mode) -> Option<u32>
    decreases s.len(),
{
    if s.len() == 0 {
        None
    } else if s.last().0 == mode {
        Some(s.last().1)
    } else {
        mode_handle(s.drop_last(), mode)
    }
}

/// The mode table after the modes `ids` are advertised: each of them that is
/// committed in `modes` is inserted in turn; the others are phantoms and skipped.
pub open spec fn extend_modes(s: Seq<(Mode, u32)>, ids: Seq<u32>, modes: Seq<ModeState>) -> Seq<(Mode, u32)>
    decreases ids.len(),
{
    if ids.len() == 0 {
        s
    } else {
        let prev = extend_modes(s, ids.drop_last(), modes);
        match mode_of(modes, ids.last()) {
            Some(mode) => insert_mode(prev, mode, ids.last()),
            None => prev,
        }
    }
}

/// The handle that `table` maps `mode` to.
pub fn find_mode_handle(table: &Vec<(Mode, u32)>, mode: Mode) -> (r: Option<u32>)
    ensures
        r == mode_handle(table@, mode),
{
    let mut found: Option<u32> = None;
    let mut i: usize = 0;
    while i < table.len()
        invariant
            i <= table@.len(),
            found == mode_handle(table@.subrange(0, i as int), mode),
        decreases table@.len() - i,
    {
        assert(table@.subrange(0, i as int + 1).drop_last() =~= table@.subrange(0, i as int));
        if table[i].0 == mode {
            found = Some(table[i].1);
        }
        i += 1;
    }
    assert(table@.subrange(0, table@.len() as int) =~= table@);
    found
}

fn insert_mode_exec(table: &mut Vec<(Mode, u32)>, mode: Mode, id: u32)
    ensures
        final(table)@ == insert_mode(old(table)@, mode, id),
{
    let mut kept: Vec<(Mode, u32)> = Vec::new();
    let mut i: usize = 0;
    while i < table.len()
        invariant
            i <= table@.len(),
            kept@ == without_mode(table@.subrange(0, i as int), mode),
        decreases table@.len() - i,
    {
        assert(table@.subrange(0, i as int + 1).drop_last() =~= table@.subrange(0, i as int));
        if table[i].0 != mode {
            kept.push(table[i]);
        }
        i += 1;
    }
    assert(table@.subrange(0, table@.len() as int) =~= table@);
    kept.push((mode, id));
    *table = kept;
}

/// The configuration of an enabled head. The current mode is the protocol id of a
/// mode object; the scale is the bit pattern of an IEEE-754 double.
#[derive(Clone, Copy, Debug, PartialEq, Eq)]
pub struct HeadConfiguration {
    pub current_mode: Option<u32>,
    pub position: (u32, u32),
    pub transform: Transform,
    pub scale: u64,
    pub adaptive_sync: Option<bool>,
}

/// The bit pattern of the scale factor 1.0.
pub const SCALE_ONE: u64 = 0x3ff0_0000_0000_0000;

impl HeadConfiguration {
    /// The configuration a head gets when it is enabled, before its fields arrive.
    pub open spec fn initial() -> HeadConfiguration {
        HeadConfiguration {
            current_mode: None,
            position: (0, 0),
            transform: Transform::Normal,
            scale: SCALE_ONE,
            adaptive_sync: None,
        }
    }
}

impl Default for HeadConfiguration {
    fn default() -> (r: HeadConfiguration)
        ensures
            r == HeadConfiguration::initial(),
    {
        HeadConfiguration {
            current_mode: None,
            position: (0, 0),
            transform: Transform::Normal,
            scale: SCALE_ONE,
            adaptive_sync: None,
        }
    }
}

/// `c` with the configuration fields that `p` reports: the current mode and the
/// adaptive sync state are taken as reported (absent included); position,
/// transform and scale only where reported.
pub open spec fn configured(c: HeadConfiguration, p: PartialHead) -> HeadConfiguration {
    HeadConfiguration {
        current_mode: p.current_mode,
        position: match p.position {
            Some(v) => v,
            None => c.position,
        },
        transform: match p.transform {
            Some(v) => v,
            None => c.transform,
        },
        scale: match p.scale {
            Some(v) => v,
            None => c.scale,
        },
        adaptive_sync: p.adaptive_sync,
    }
}

/// The configuration a head has after `p` is applied to one whose configuration
/// is `c`, or the error that applying it raises.
pub open spec fn applied_configuration(c: Option<HeadConfiguration>, p: PartialHead) -> Result<
    Option<HeadConfiguration>,
    ApplyPartialHeadError,
> {
    if let Some(property) = p.assigned_immutable_property() {
        Err(ApplyPartialHeadError::ImmutablePropertySet(property))
    } else {
        let base = match p.enabled {
            Some(true) => Some(HeadConfiguration::initial()),
            Some(false) => None,
            None => c,
        };
        match base {
            Some(b) => Ok(Some(configured(b, p))),
            None => match p.assigned_configuration_property() {
                Some(property) => Err(
                    ApplyPartialHeadError::ConfigurationPropertyOnDisabledHeadSet(property),
                ),
                None => Ok(None),
            },
        }
    }
}

/// A committed head.
#[derive(Debug)]
pub struct Head {
    pub identity: HeadIdentity,
    /// Each mode value the head advertises, with the protocol id of its mode object.
    pub mode_to_id: Vec<(Mode, u32)>,
    /// Present exactly when the head is enabled.
    pub configuration: Option<HeadConfiguration>,
}

#[derive(Clone, Copy, Debug, PartialEq, Eq, Structural)]
pub enum CreateHeadError {
    MissingName,
    MissingDescription,
    MissingEnabled,
    /// An enabled head lacks one of current mode, position, transform and scale.
    MissingConfigurationProperty(ConfigurationProperty),
    ConfigurationPropertyOnDisabledHeadSet(ConfigurationProperty),
}

#[derive(Clone, Copy, Debug, PartialEq, Eq, Structural)]
pub enum ApplyPartialHeadError {
    ImmutablePropertySet(ImmutableProperty),
    ConfigurationPropertyOnDisabledHeadSet(ConfigurationProperty),
}

/// The first of current mode, position, transform and scale that `p` lacks.
pub open spec fn missing_configuration_property(p: PartialHead) -> Option<ConfigurationProperty> {
    if p.current_mode.is_none() {
        Some(ConfigurationProperty::CurrentMode)
    } else if p.position.is_none() {
        Some(ConfigurationProperty::Position)
    } else if p.transform.is_none() {
        Some(ConfigurationProperty::Transform)
    } else if p.scale.is_none() {
        Some(ConfigurationProperty::Scale)
    } else {
        None
    }
}

/// The error that promoting `p` raises, if any.
pub open spec fn create_error(p: PartialHead) -> Option<CreateHeadError> {
    if p.name.is_none() {
        Some(CreateHeadError::MissingName)
    } else if p.description.is_none() {
        Some(CreateHeadError::MissingDescription)
    } else if p.enabled.is_none() {
        Some(CreateHeadError::MissingEnabled)
    } else if p.enabled == Some(true) && missing_configuration_property(p).is_some() {
        Some(CreateHeadError::MissingConfigurationProperty(missing_configuration_property(p)->0))
    } else if p.enabled == Some(false) && p.assigned_configuration_property().is_some() {
        Some(
            CreateHeadError::ConfigurationPropertyOnDisabledHeadSet(
                p.assigned_configuration_property()->0,
            ),
        )
    } else {
        None
    }
}

/// The identity that a partial head with name and description carries.
pub open spec fn identity_of(p: PartialHead) -> IdentityView {
    (
        p.name->0@,
        p.description->0@,
        opt_chars(p.make),
        opt_chars(p.model),
        opt_chars(p.serial_number),
    )
}

impl Head {
    /// Promotes a partial head at a barrier. Name, description and enabled are
    /// required; an enabled head also needs current mode, position, transform and
    /// scale, and a disabled one may carry no configuration field.
    pub fn create_from_partial(value: PartialHead, id_to_mode: &Vec<ModeState>) -> (r: Result<
        Head,
        CreateHeadError,
    >)
        ensures
            match create_error(value) {
                Some(e) => r == Err::<Head, CreateHeadError>(e),
                None => r is Ok,
            },
            r matches Ok(head) ==> {
                &&& head.identity@ == identity_of(value)
                &&& head.mode_to_id@ == extend_modes(Seq::empty(), value.modes@, id_to_mode@)
                &&& head.configuration == (if value.enabled == Some(true) {
                    Some(configured(HeadConfiguration::initial(), value))
                } else {
                    None
                })
                &&& head.configuration.is_some() == (value.enabled == Some(true))
            },
    {
        let mut value = value;
        let name = match value.name.take() {
            Some(name) => name,
            None => return Err(CreateHeadError::MissingName),
        };
        let description = match value.description.take() {
            Some(description) => description,
            None => return Err(CreateHeadError::MissingDescription),
        };
        let enabled = match value.enabled {
            Some(enabled) => enabled,
            None => return Err(CreateHeadError::MissingEnabled),
        };
        if enabled {
            if value.current_mode.is_none() {
                return Err(
                    CreateHeadError::MissingConfigurationProperty(
                        ConfigurationProperty::CurrentMode,
                    ),
                );
            } else if value.position.is_none() {
                return Err(
                    CreateHeadError::MissingConfigurationProperty(ConfigurationProperty::Position),
                );
            } else if value.transform.is_none() {
                return Err(
                    CreateHeadError::MissingConfigurationProperty(ConfigurationProperty::Transform),
                );
            } else if value.scale.is_none() {
                return Err(
                    CreateHeadError::MissingConfigurationProperty(ConfigurationProperty::Scale),
                );
            }
        }
        let mut head = Head {
            identity: HeadIdentity {
                name,
                description,
                make: value.make.take(),
                model: value.model.take(),
                serial_number: value.serial_number.take(),
            },
            mode_to_id: Vec::new(),
            configuration: None,
        };
        match head.apply_partial(value, id_to_mode) {
            Ok(()) => Ok(head),
            Err(ApplyPartialHeadError::ConfigurationPropertyOnDisabledHeadSet(property)) => Err(
                CreateHeadError::ConfigurationPropertyOnDisabledHeadSet(property),
            ),
            Err(ApplyPartialHeadError::ImmutablePropertySet(_)) => {
                // The identity fields were all taken above.
                assert(false);
                Ok(head)
            },
        }
    }

    /// Applies the changes in `partial` to this committed head. Identity fields
    /// may not change, and a head that stays or becomes disabled may not receive
    /// configuration fields. Reporting enabled installs a fresh configuration;
    /// reporting disabled clears it.
    pub fn apply_partial(&mut self, partial: PartialHead, id_to_mode: &Vec<ModeState>) -> (r:
        Result<(), ApplyPartialHeadError>)
        ensures
            final(self).identity == old(self).identity,
            r == (match applied_configuration(old(self).configuration, partial) {
                Ok(_) => Ok(()),
                Err(e) => Err(e),
            }),
            r is Ok ==> {
                &&& Ok::<Option<HeadConfiguration>, ApplyPartialHeadError>(final(self).configuration) == applied_configuration(
                    old(self).configuration,
                    partial,
                )
                &&& final(self).mode_to_id@ == extend_modes(
                    old(self).mode_to_id@,
                    partial.modes@,
                    id_to_mode@,
                )
            },
            r is Ok ==> match partial.enabled {
                Some(enabled) => final(self).configuration.is_some() == enabled,
                None => final(self).configuration.is_some() == old(
                    self,
                ).configuration.is_some(),
            },
            partial.assigned_immutable_property().is_some() ==> *final(self) == *old(self),
            partial.assigned_immutable_property().is_none() ==> final(self).mode_to_id@
                == extend_modes(old(self).mode_to_id@, partial.modes@, id_to_mode@),
            partial.assigned_immutable_property().is_none() && r is Err
                ==> final(self).configuration is None,
            partial.assigned_immutable_property().is_none() ==> match partial.enabled {
                Some(enabled) => final(self).configuration.is_some() == enabled,
                None => final(self).configuration.is_some() == old(
                    self,
                ).configuration.is_some(),
            },
    {
        if let Some(property) = partial.get_assigned_immutable_property() {
            return Err(ApplyPartialHeadError::ImmutablePropertySet(property));
        }
        let mut i: usize = 0;
        while i < partial.modes.len()
            invariant
                i <= partial.modes@.len(),
                self.identity == old(self).identity,
                self.configuration == old(self).configuration,
                self.mode_to_id@ == extend_modes(
                    old(self).mode_to_id@,
                    partial.modes@.subrange(0, i as int),
                    id_to_mode@,
                ),
            decreases partial.modes@.len() - i,
        {
            assert(partial.modes@.subrange(0, i as int + 1).drop_last() =~= partial.modes@.subrange(
                0,
                i as int,
            ));
            let id = partial.modes[i];
            if let Some(mode) = find_mode(id_to_mode, id) {
                insert_mode_exec(&mut self.mode_to_id, mode, id);
            }
            i += 1;
        }
        assert(partial.modes@.subrange(0, partial.modes@.len() as int) =~= partial.modes@);
        match partial.enabled {
            Some(false) => {
                self.configuration = None;
            },
            Some(true) => {
                self.configuration = Some(HeadConfiguration::default());
            },
            None => {},
        }
        match self.configuration {
            None => {
                if let Some(property) = partial.get_assigned_configuration_property() {
                    return Err(ApplyPartialHeadError::ConfigurationPropertyOnDisabledHeadSet(property));
                }
                Ok(())
            },
            Some(c) => {
                let mut c = c;
                c.current_mode = partial.current_mode;
                if let Some(position) = partial.position {
                    c.position = position;
                }
                if let Some(transform) = partial.transform {
                    c.transform = transform;
                }
                if let Some(scale) = partial.scale {
                    c.scale = scale;
                }
                c.adaptive_sync = partial.adaptive_sync;
                self.configuration = Some(c);
                Ok(())
            },
        }
    }
}

/// A committed head and the protocol id of its object.
#[derive(Debug)]
pub struct HeadState {
    pub id: u32,
    pub head: Head,
}

impl HeadState {
    pub fn create_from_partial(value: PartialHeadState, id_to_mode: &Vec<ModeState>) -> (r: Result<
        HeadState,
        CreateHeadError,
    >)
        ensures
            match create_error(value.head) {
                Some(e) => r == Err::<HeadState, CreateHeadError>(e),
                None => r is Ok,
            },
            r matches Ok(state) ==> {
                &&& state.id == value.id
                &&& state.head.identity@ == identity_of(value.head)
                &&& state.head.mode_to_id@ == extend_modes(
                    Seq::empty(),
                    value.head.modes@,
                    id_to_mode@,
                )
                &&& state.head.configuration == (if value.head.enabled == Some(true) {
                    Some(configured(HeadConfiguration::initial(), value.head))
                } else {
                    None
                })
            },
    {
        let id = value.id;
        match Head::create_from_partial(value.head, id_to_mode) {
            Ok(head) => Ok(HeadState { id, head }),
            Err(e) => Err(e),
        }
    }
}

} // verus!
