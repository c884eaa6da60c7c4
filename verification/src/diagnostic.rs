//! Structured errors with optional source positions.

use vstd::prelude::*;
use crate::span::Span;
use crate::text::{dec_str, u32_to_string};

verus! {

/// Every way a change request can be rejected.
#[derive(Debug)]
pub enum ErrorKind {
    /// A trunk removal names a VLAN the interface does not carry.
    VlanNotPresent { vlan: u32, interface: String },
    /// A trunk addition names a VLAN known neither to the change input nor
    /// to the base configuration.
    VlanNotDefinedInDatabase { vlan: u32 },
    /// A `vlan` declaration is missing its name.
    VlanNameRequired { vlan: Option<u32> },
    /// A `vlan` declaration's tag did not parse.
    InvalidVlanId { text: String },
    /// A VLAN list entry is not a number.
    InvalidVlanNumber { text: String },
    /// A VLAN range runs backwards.
    InvalidVlanRange { text: String },
    /// A VLAN list has no entries.
    VlanListEmpty,
    /// Neither the change input nor the base configuration gives the
    /// interface a description.
    MissingDescription { interface: String },
    /// A BVI interface's number did not parse.
    InvalidBviNumber { text: String },
    /// A bundle member interface may not carry its own trunk configuration.
    BundledInterfaceCannotConfigureVlans { interface: String, bundle_id: u32 },
    /// Only trunk mode is supported.
    UnsupportedSwitchportMode { mode: String },
    /// Access mode is not supported.
    AccessModeNotSupported,
    /// A trunk action other than add or remove.
    InvalidTrunkAction { action: String },
    /// An interface block without any supported statement.
    InterfaceRequiresStatements { interface: String },
    /// A free-form message.
    Generic { message: String },
}

/// Ghost model of an [`ErrorKind`], with text payloads as character
/// sequences.
pub enum SpecErrorKind {
    VlanNotPresent { vlan: u32, interface: Seq<char> },
    VlanNotDefinedInDatabase { vlan: u32 },
    VlanNameRequired { vlan: Option<u32> },
    InvalidVlanId { text: Seq<char> },
    InvalidVlanNumber { text: Seq<char> },
    InvalidVlanRange { text: Seq<char> },
    VlanListEmpty,
    MissingDescription { interface: Seq<char> },
    InvalidBviNumber { text: Seq<char> },
    BundledInterfaceCannotConfigureVlans { interface: Seq<char>, bundle_id: u32 },
    UnsupportedSwitchportMode { mode: Seq<char> },
    AccessModeNotSupported,
    InvalidTrunkAction { action: Seq<char> },
    InterfaceRequiresStatements { interface: Seq<char> },
    Generic { message: Seq<char> },
}

/// Model of an error kind value.
pub open spec fn ek_view(kind: ErrorKind) -> SpecErrorKind {
    match kind {
        ErrorKind::VlanNotPresent { vlan, interface } => SpecErrorKind::VlanNotPresent {
            vlan,
            interface: interface@,
        },
        ErrorKind::VlanNotDefinedInDatabase { vlan } => SpecErrorKind::VlanNotDefinedInDatabase {
            vlan,
        },
        ErrorKind::VlanNameRequired { vlan } => SpecErrorKind::VlanNameRequired { vlan },
        ErrorKind::InvalidVlanId { text } => SpecErrorKind::InvalidVlanId { text: text@ },
        ErrorKind::InvalidVlanNumber { text } => SpecErrorKind::InvalidVlanNumber { text: text@ },
        ErrorKind::InvalidVlanRange { text } => SpecErrorKind::InvalidVlanRange { text: text@ },
        ErrorKind::VlanListEmpty => SpecErrorKind::VlanListEmpty,
        ErrorKind::MissingDescription { interface } => SpecErrorKind::MissingDescription {
            interface: interface@,
        },
        ErrorKind::InvalidBviNumber { text } => SpecErrorKind::InvalidBviNumber { text: text@ },
        ErrorKind::BundledInterfaceCannotConfigureVlans { interface, bundle_id } =>
            SpecErrorKind::BundledInterfaceCannotConfigureVlans {
            interface: interface@,
            bundle_id,
        },
        ErrorKind::UnsupportedSwitchportMode { mode } => SpecErrorKind::UnsupportedSwitchportMode {
            mode: mode@,
        },
        ErrorKind::AccessModeNotSupported => SpecErrorKind::AccessModeNotSupported,
        ErrorKind::InvalidTrunkAction { action } => SpecErrorKind::InvalidTrunkAction {
            action: action@,
        },
        ErrorKind::InterfaceRequiresStatements { interface } =>
            SpecErrorKind::InterfaceRequiresStatements { interface: interface@ },
        ErrorKind::Generic { message } => SpecErrorKind::Generic { message: message@ },
    }
}

/// Ghost model of a [`Diagnostic`].
pub struct SpecDiag {
    pub kind: SpecErrorKind,
    pub span: Option<crate::span::Span>,
}

/// Model of a diagnostic value.
pub open spec fn diag_view(d: Diagnostic) -> SpecDiag {
    SpecDiag { kind: ek_view(d.kind), span: d.span }
}

/// The rendered message of each error kind model.
pub open spec fn spec_message_of(kind: SpecErrorKind) -> Seq<char> {
    match kind {
        SpecErrorKind::VlanNotPresent { vlan, interface } => "cannot remove VLAN "@ + dec_str(
            vlan as nat,
        ) + " from interface "@ + interface + ": VLAN not present in base config"@,
        SpecErrorKind::VlanNotDefinedInDatabase { vlan } => "VLAN "@ + dec_str(vlan as nat)
            + " is not defined in vlan database or base config"@,
        SpecErrorKind::VlanNameRequired { vlan } => match vlan {
            Some(v) => "VLAN "@ + dec_str(v as nat) + " name is required"@,
            None => "vlan name is required"@,
        },
        SpecErrorKind::InvalidVlanId { text } => "invalid vlan id: "@ + text,
        SpecErrorKind::InvalidVlanNumber { text } => "invalid vlan number: "@ + text,
        SpecErrorKind::InvalidVlanRange { text } => "invalid VLAN range (start must be <= end): "@
            + text,
        SpecErrorKind::VlanListEmpty => "vlan list is empty"@,
        SpecErrorKind::MissingDescription { interface } => "interface requires description: "@
            + interface,
        SpecErrorKind::InvalidBviNumber { text } => "invalid BVI number: "@ + text,
        SpecErrorKind::BundledInterfaceCannotConfigureVlans { interface, bundle_id } =>
            "interface "@ + interface + " is part of bundle "@ + dec_str(bundle_id as nat)
            + " and cannot configure VLANs directly. Configure VLANs on Bundle-Ether"@ + dec_str(
            bundle_id as nat,
        ) + " instead"@,
        SpecErrorKind::UnsupportedSwitchportMode { mode } => "switchport mode "@ + mode
            + " is not supported"@,
        SpecErrorKind::AccessModeNotSupported => "switchport access is not supported"@,
        SpecErrorKind::InvalidTrunkAction { action } => "invalid trunk action: "@ + action,
        SpecErrorKind::InterfaceRequiresStatements { interface } =>
            "interface block must contain supported statements"@,
        SpecErrorKind::Generic { message } => message,
    }
}

/// The rendered message of an error kind.
pub open spec fn spec_message(kind: ErrorKind) -> Seq<char> {
    spec_message_of(ek_view(kind))
}

impl ErrorKind {
    /// Render the message, without position information.
    pub fn message(&self) -> (r: String)
        ensures
            r@ == spec_message(*self),
    {
        let mut s = String::new();
        match self {
            ErrorKind::VlanNotPresent { vlan, interface } => {
                s.append("cannot remove VLAN ");
                let num = u32_to_string(*vlan);
                s.append(num.as_str());
                s.append(" from interface ");
                s.append(interface.as_str());
                s.append(": VLAN not present in base config");
            },
            ErrorKind::VlanNotDefinedInDatabase { vlan } => {
                s.append("VLAN ");
                let num = u32_to_string(*vlan);
                s.append(num.as_str());
                s.append(" is not defined in vlan database or base config");
            },
            ErrorKind::VlanNameRequired { vlan } => {
                match vlan {
                    Some(v) => {
                        s.append("VLAN ");
                        let num = u32_to_string(*v);
                        s.append(num.as_str());
                        s.append(" name is required");
                    },
                    None => {
                        s.append("vlan name is required");
                    },
                }
            },
            ErrorKind::InvalidVlanId { text } => {
                s.append("invalid vlan id: ");
                s.append(text.as_str());
            },
            ErrorKind::InvalidVlanNumber { text } => {
                s.append("invalid vlan number: ");
                s.append(text.as_str());
            },
            ErrorKind::InvalidVlanRange { text } => {
                s.append("invalid VLAN range (start must be <= end): ");
                s.append(text.as_str());
            },
            ErrorKind::VlanListEmpty => {
                s.append("vlan list is empty");
            },
            ErrorKind::MissingDescription { interface } => {
                s.append("interface requires description: ");
                s.append(interface.as_str());
            },
            ErrorKind::InvalidBviNumber { text } => {
                s.append("invalid BVI number: ");
                s.append(text.as_str());
            },
            ErrorKind::BundledInterfaceCannotConfigureVlans { interface, bundle_id } => {
                s.append("interface ");
                s.append(interface.as_str());
                s.append(" is part of bundle ");
                let num = u32_to_string(*bundle_id);
                s.append(num.as_str());
                s.append(" and cannot configure VLANs directly. Configure VLANs on Bundle-Ether");
                s.append(num.as_str());
                s.append(" instead");
            },
            ErrorKind::UnsupportedSwitchportMode { mode } => {
                s.append("switchport mode ");
                s.append(mode.as_str());
                s.append(" is not supported");
            },
            ErrorKind::AccessModeNotSupported => {
                s.append("switchport access is not supported");
            },
            ErrorKind::InvalidTrunkAction { action } => {
                s.append("invalid trunk action: ");
                s.append(action.as_str());
            },
            ErrorKind::InterfaceRequiresStatements { interface: _ } => {
                s.append("interface block must contain supported statements");
            },
            ErrorKind::Generic { message } => {
                s.append(message.as_str());
            },
        }
        s
    }
}

/// An error with an optional source position.
#[derive(Debug)]
pub struct Diagnostic {
    /// What went wrong.
    pub kind: ErrorKind,
    /// Where in the change input it went wrong, when known.
    pub span: Option<Span>,
}

/// The rendered diagnostic: the message, with the line appended when a span
/// is attached.  Column information is never surfaced.
pub open spec fn spec_format_of(d: SpecDiag) -> Seq<char> {
    match d.span {
        Some(span) => spec_message_of(d.kind) + " (line "@ + dec_str(span.line.0 as nat) + ")"@,
        None => spec_message_of(d.kind),
    }
}

/// The rendered diagnostic of a diagnostic value.
pub open spec fn spec_format(d: Diagnostic) -> Seq<char> {
    spec_format_of(diag_view(d))
}

impl Diagnostic {
    /// An error without position information.
    pub fn new(kind: ErrorKind) -> (r: Diagnostic)
        ensures
            r.kind == kind,
            r.span is None,
    {
        Diagnostic { kind, span: None }
    }

    /// An error pinned to a source position.
    pub fn with_span(kind: ErrorKind, span: Span) -> (r: Diagnostic)
        ensures
            r.kind == kind,
            r.span == Some(span),
    {
        Diagnostic { kind, span: Some(span) }
    }

    /// Render as `"<message>"` or `"<message> (line N)"`.
    pub fn format(&self) -> (r: String)
        ensures
            r@ == spec_format(*self),
    {
        let mut s = self.kind.message();
        match &self.span {
            Some(span) => {
                s.append(" (line ");
                let num = u32_to_string(span.line.get());
                s.append(num.as_str());
                s.append(")");
                s
            },
            None => s,
        }
    }
}

} // verus!
