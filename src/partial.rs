use vstd::prelude::*;

use crate::layout::Transform;

verus! {

/// The fields of a head reported since the last barrier. Object handles are the
/// protocol ids of the objects.
#[derive(Clone, Debug)]
pub struct PartialHead {
    pub name: Option<String>,
    pub description: Option<String>,
    pub make: Option<String>,
    pub model: Option<String>,
    pub serial_number: Option<String>,
    pub enabled: Option<bool>,
    pub modes: Vec<u32>,
    pub current_mode: Option<u32>,
    pub position: Option<(u32, u32)>,
    pub transform: Option<Transform>,
    /// Bit pattern of the reported scale factor (an IEEE-754 double).
    pub scale: Option<u64>,
    pub adaptive_sync: Option<bool>,
}

impl PartialHead {
    /// A partial head with nothing reported yet.
    pub fn new() -> (r: PartialHead)
        ensures
            r.is_empty(),
    {
        PartialHead {
            name: None,
            description: None,
            make: None,
            model: None,
            serial_number: None,
            enabled: None,
            modes: Vec::new(),
            current_mode: None,
            position: None,
            transform: None,
            scale: None,
            adaptive_sync: None,
        }
    }

    pub open spec fn is_empty(&self) -> bool {
        &&& self.name.is_none()
        &&& self.description.is_none()
        &&& self.make.is_none()
        &&& self.model.is_none()
        &&& self.serial_number.is_none()
        &&& self.enabled.is_none()
        &&& self.modes@.len() == 0
        &&& self.current_mode.is_none()
        &&& self.position.is_none()
        &&& self.transform.is_none()
        &&& self.scale.is_none()
        &&& self.adaptive_sync.is_none()
    }

    /// The first identity field that is set, in the order name, description, make,
    /// model, serial number.
    pub open spec fn assigned_immutable_property(&self) -> Option<ImmutableProperty> {
        if self.name.is_some() {
            Some(ImmutableProperty::Name)
        } else if self.description.is_some() {
            Some(ImmutableProperty::Description)
        } else if self.make.is_some() {
            Some(ImmutableProperty::Make)
        } else if self.model.is_some() {
            Some(ImmutableProperty::Model)
        } else if self.serial_number.is_some() {
            Some(ImmutableProperty::SerialNumber)
        } else {
            None
        }
    }

    /// The first configuration field that is set, in the order current mode,
    /// position, transform, scale, adaptive sync.
    pub open spec fn assigned_configuration_property(&self) -> Option<ConfigurationProperty> {
        if self.current_mode.is_some() {
            Some(ConfigurationProperty::CurrentMode)
        } else if self.position.is_some() {
            Some(ConfigurationProperty::Position)
        } else if self.transform.is_some() {
            Some(ConfigurationProperty::Transform)
        } else if self.scale.is_some() {
            Some(ConfigurationProperty::Scale)
        } else if self.adaptive_sync.is_some() {
            Some(ConfigurationProperty::AdaptiveSync)
        } else {
            None
        }
    }

    pub fn get_assigned_immutable_property(&self) -> (r: Option<ImmutableProperty>)
        ensures
            r == self.assigned_immutable_property(),
    {
        if self.name.is_some() {
            Some(ImmutableProperty::Name)
        } else if self.description.is_some() {
            Some(ImmutableProperty::Description)
        } else if self.make.is_some() {
            Some(ImmutableProperty::Make)
        } else if self.model.is_some() {
            Some(ImmutableProperty::Model)
        } else if self.serial_number.is_some() {
            Some(ImmutableProperty::SerialNumber)
        } else {
            None
        }
    }

    pub fn get_assigned_configuration_property(&self) -> (r: Option<ConfigurationProperty>)
        ensures
            r == self.assigned_configuration_property(),
    {
        if self.current_mode.is_some() {
            Some(ConfigurationProperty::CurrentMode)
        } else if self.position.is_some() {
            Some(ConfigurationProperty::Position)
        } else if self.transform.is_some() {
            Some(ConfigurationProperty::Transform)
        } else if self.scale.is_some() {
            Some(ConfigurationProperty::Scale)
        } else if self.adaptive_sync.is_some() {
            Some(ConfigurationProperty::AdaptiveSync)
        } else {
            None
        }
    }
}

/// A head event of the protocol, with objects named by their protocol ids.
#[derive(Clone, Debug)]
pub enum HeadEvent {
    Name(String),
    Description(String),
    Make(String),
    Model(String),
    SerialNumber(String),
    /// The head advertises the mode object with this id.
    Mode(u32),
    Enabled(bool),
    CurrentMode(u32),
    Position(u32, u32),
    Transform(Transform),
    /// Bit pattern of the scale factor (an IEEE-754 double).
    Scale(u64),
    /// Adaptive sync enabled or disabled; none where its state is unknown.
    AdaptiveSync(Option<bool>),
}

/// Whether `after` is `before` with `event` recorded: the field it reports is
/// set (the adaptive sync state as reported, unknown included), or the mode it
/// advertises is appended.
pub open spec fn recorded(before: PartialHead, after: PartialHead, event: HeadEvent) -> bool {
    match event {
        HeadEvent::Mode(m) => after.modes@ == before.modes@.push(m) && (PartialHead {
            modes: before.modes,
            ..after
        }) == before,
        HeadEvent::Name(v) => after == (PartialHead { name: Some(v), ..before }),
        HeadEvent::Description(v) => after == (PartialHead { description: Some(v), ..before }),
        HeadEvent::Make(v) => after == (PartialHead { make: Some(v), ..before }),
        HeadEvent::Model(v) => after == (PartialHead { model: Some(v), ..before }),
        HeadEvent::SerialNumber(v) => after == (PartialHead { serial_number: Some(v), ..before }),
        HeadEvent::Enabled(v) => after == (PartialHead { enabled: Some(v), ..before }),
        HeadEvent::CurrentMode(v) => after == (PartialHead { current_mode: Some(v), ..before }),
        HeadEvent::Position(x, y) => after == (PartialHead { position: Some((x, y)), ..before }),
        HeadEvent::Transform(v) => after == (PartialHead { transform: Some(v), ..before }),
        HeadEvent::Scale(v) => after == (PartialHead { scale: Some(v), ..before }),
        HeadEvent::AdaptiveSync(v) => after == (PartialHead { adaptive_sync: v, ..before }),
    }
}

impl PartialHead {
    /// Records one head event.
    pub fn record(&mut self, event: HeadEvent)
        ensures
            recorded(*old(self), *final(self), event),
    {
        match event {
            HeadEvent::Name(v) => self.name = Some(v),
            HeadEvent::Description(v) => self.description = Some(v),
            HeadEvent::Make(v) => self.make = Some(v),
            HeadEvent::Model(v) => self.model = Some(v),
            HeadEvent::SerialNumber(v) => self.serial_number = Some(v),
            HeadEvent::Mode(m) => self.modes.push(m),
            HeadEvent::Enabled(v) => self.enabled = Some(v),
            HeadEvent::CurrentMode(v) => self.current_mode = Some(v),
            HeadEvent::Position(x, y) => self.position = Some((x, y)),
            HeadEvent::Transform(v) => self.transform = Some(v),
            HeadEvent::Scale(v) => self.scale = Some(v),
            HeadEvent::AdaptiveSync(v) => self.adaptive_sync = v,
        }
    }
}

/// A mode event of the protocol.
#[derive(Clone, Copy, Debug, PartialEq, Eq)]
pub enum ModeEvent {
    Size(u32, u32),
    /// Refresh rate in mHz.
    Refresh(u32),
}

impl PartialMode {
    /// The partial mode with `event` recorded.
    pub open spec fn recorded(self, event: ModeEvent) -> PartialMode {
        match event {
            ModeEvent::Size(w, h) => PartialMode { size: Some((w, h)), ..self },
            ModeEvent::Refresh(r) => PartialMode { refresh: Some(r), ..self },
        }
    }
}

/// A property that is immutable after a head has been created.
#[derive(Debug, Clone, Copy, PartialEq, Eq, Structural)]
pub enum ImmutableProperty {
    Name,
    Description,
    Make,
    Model,
    SerialNumber,
}

/// A property about the configuration of an enabled head. Enabled itself is not one.
#[derive(Debug, Clone, Copy, PartialEq, Eq, Structural)]
pub enum ConfigurationProperty {
    CurrentMode,
    Position,
    Transform,
    Scale,
    AdaptiveSync,
}

/// A head that has not been committed yet, or the changes to a committed head
/// since the last barrier, with the protocol id of the head object.
#[derive(Clone, Debug)]
pub struct PartialHeadState {
    pub id: u32,
    pub head: PartialHead,
}

/// The fields of a mode reported so far.
#[derive(Clone, Copy, Debug, PartialEq, Eq)]
pub struct PartialMode {
    pub size: Option<(u32, u32)>,
    pub refresh: Option<u32>,
}

/// A mode that has not been committed yet, with the protocol id of the mode object.
#[derive(Clone, Copy, Debug, PartialEq, Eq)]
pub struct PartialModeState {
    pub id: u32,
    pub mode: PartialMode,
}

/// The objects staged since the last barrier.
pub struct PartialObjects {
    pub id_to_head: Vec<PartialHeadState>,
    pub id_to_mode: Vec<PartialModeState>,
}

} // verus!
