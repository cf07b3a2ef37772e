//! What the server refuses, and in which words.
use vstd::prelude::*;
use vstd::string::StringExecFns;

use crate::buildings::{building_cost, cost_of, label_of, BuildingType};
use crate::text::{signed_decimal, signed_digits};

verus! {

/// A refused request.
#[derive(Clone, Copy, Debug, PartialEq, Eq, Structural)]
pub enum Refusal {
    UsernameTooShort,
    PasswordTooShort,
    UsernameTaken,
    NotEnoughNodes,
    NoStartNode,
    StartNodeNotInWorld,
    StartNodeOwned,
    BadLogin,
    InvalidSession,
    SessionExpired,
    NodeMissing,
    NodeNotOwned,
    NodeBuiltUp,
    PlayerMissing,
    BuildingTooDear(BuildingType),
    OutsideCity(BuildingType),
    CityHasBank,
    UnknownMissile,
    TargetOutside,
    NoSilo,
    MissileTooDear(i64),
    SiloCooling,
    SameNode,
    InvalidNodes,
    SourceNotOwned,
    NotAdjacent,
    NoRoadCoordinates,
    NoRoadBetween,
    TooManyCandidates,
    ConnectionMissing,
    InvalidTile,
    NoNodeSource,
    TileMissing,
    InvalidNode,
    UnknownBuilding,
    InvalidTarget,
    BodyTooLarge,
    InvalidJson,
}

/// The words of a refusal.
pub open spec fn refusal_text(refusal: Refusal) -> Seq<char> {
    match refusal {
        Refusal::UsernameTooShort => "Username must be at least 3 characters."@,
        Refusal::PasswordTooShort => "Password must be at least 4 characters."@,
        Refusal::UsernameTaken => "Username already exists."@,
        Refusal::NotEnoughNodes =>
            "Not enough generated nodes yet. Wait for more node batches to complete."@,
        Refusal::NoStartNode => "Selected starting node does not exist."@,
        Refusal::StartNodeNotInWorld => "Selected starting node is not part of the world yet."@,
        Refusal::StartNodeOwned => "That node is already owned. Choose a neutral node."@,
        Refusal::BadLogin => "Invalid username or password."@,
        Refusal::InvalidSession => "Invalid session."@,
        Refusal::SessionExpired => "Session expired. Please log in again."@,
        Refusal::NodeMissing => "Node does not exist."@,
        Refusal::NodeNotOwned => "You do not own this node."@,
        Refusal::NodeBuiltUp => "This node already has a building."@,
        Refusal::PlayerMissing => "Player not found."@,
        Refusal::BuildingTooDear(b) => "Not enough gold. "@ + label_of(b) + " costs "@
            + signed_digits(cost_of(b) as int) + " gold."@,
        Refusal::OutsideCity(b) => label_of(b) + " must be built inside one of your cities."@,
        Refusal::CityHasBank => "This city already has a bank."@,
        Refusal::UnknownMissile => "Unknown missile type."@,
        Refusal::TargetOutside => "Target is outside the active map region."@,
        Refusal::NoSilo => "You need a Silo to launch missiles."@,
        Refusal::MissileTooDear(cost) => "Not enough gold. This missile costs "@ + signed_digits(
            cost as int,
        ) + " gold."@,
        Refusal::SiloCooling => "Silo is on cooldown."@,
        Refusal::SameNode => "Select a different target node."@,
        Refusal::InvalidNodes => "Invalid nodes."@,
        Refusal::SourceNotOwned => "You can only connect from your own node."@,
        Refusal::NotAdjacent =>
            "Connectable nodes must be directly next to your node on a single road."@,
        Refusal::NoRoadCoordinates => "Missing road coordinates for one of the nodes."@,
        Refusal::NoRoadBetween => "No road path found between those nodes."@,
        Refusal::TooManyCandidates => "Too many candidate nodes requested."@,
        Refusal::ConnectionMissing => "Connection not found."@,
        Refusal::InvalidTile => "Invalid tile coordinates."@,
        Refusal::NoNodeSource => "No prepared node source found."@,
        Refusal::TileMissing => "z, x, and y are required."@,
        Refusal::InvalidNode => "Invalid node."@,
        Refusal::UnknownBuilding => "Unknown building type."@,
        Refusal::InvalidTarget => "Invalid target."@,
        Refusal::BodyTooLarge => "Request body too large."@,
        Refusal::InvalidJson => "Invalid JSON."@,
    }
}

impl Refusal {
    /// What the player reads.
    pub fn message(&self) -> (r: String)
        ensures
            r@ == refusal_text(*self),
    {
        let fixed: &str = match self {
            Refusal::UsernameTooShort => "Username must be at least 3 characters.",
            Refusal::PasswordTooShort => "Password must be at least 4 characters.",
            Refusal::UsernameTaken => "Username already exists.",
            Refusal::NotEnoughNodes =>
                "Not enough generated nodes yet. Wait for more node batches to complete.",
            Refusal::NoStartNode => "Selected starting node does not exist.",
            Refusal::StartNodeNotInWorld => "Selected starting node is not part of the world yet.",
            Refusal::StartNodeOwned => "That node is already owned. Choose a neutral node.",
            Refusal::BadLogin => "Invalid username or password.",
            Refusal::InvalidSession => "Invalid session.",
            Refusal::SessionExpired => "Session expired. Please log in again.",
            Refusal::NodeMissing => "Node does not exist.",
            Refusal::NodeNotOwned => "You do not own this node.",
            Refusal::NodeBuiltUp => "This node already has a building.",
            Refusal::PlayerMissing => "Player not found.",
            Refusal::BuildingTooDear(b) => {
                let mut out = "Not enough gold. ".to_owned();
                out.append(b.to_label());
                out.append(" costs ");
                let price = signed_decimal(building_cost(b));
                out.append(price.as_str());
                out.append(" gold.");
                return out;
            },
            Refusal::OutsideCity(b) => {
                let mut out = b.to_label().to_owned();
                out.append(" must be built inside one of your cities.");
                return out;
            },
            Refusal::CityHasBank => "This city already has a bank.",
            Refusal::UnknownMissile => "Unknown missile type.",
            Refusal::TargetOutside => "Target is outside the active map region.",
            Refusal::NoSilo => "You need a Silo to launch missiles.",
            Refusal::MissileTooDear(cost) => {
                let mut out = "Not enough gold. This missile costs ".to_owned();
                let price = signed_decimal(*cost);
                out.append(price.as_str());
                out.append(" gold.");
                return out;
            },
            Refusal::SiloCooling => "Silo is on cooldown.",
            Refusal::SameNode => "Select a different target node.",
            Refusal::InvalidNodes => "Invalid nodes.",
            Refusal::SourceNotOwned => "You can only connect from your own node.",
            Refusal::NotAdjacent =>
                "Connectable nodes must be directly next to your node on a single road.",
            Refusal::NoRoadCoordinates => "Missing road coordinates for one of the nodes.",
            Refusal::NoRoadBetween => "No road path found between those nodes.",
            Refusal::TooManyCandidates => "Too many candidate nodes requested.",
            Refusal::ConnectionMissing => "Connection not found.",
            Refusal::InvalidTile => "Invalid tile coordinates.",
            Refusal::NoNodeSource => "No prepared node source found.",
            Refusal::TileMissing => "z, x, and y are required.",
            Refusal::InvalidNode => "Invalid node.",
            Refusal::UnknownBuilding => "Unknown building type.",
            Refusal::InvalidTarget => "Invalid target.",
            Refusal::BodyTooLarge => "Request body too large.",
            Refusal::InvalidJson => "Invalid JSON.",
        };
        fixed.to_owned()
    }
}

/// A request that failed: refused, or for a reason that names what it is about.
pub enum Failure {
    Refused(Refusal),
    NoRoad { from: String, to: String },
    IndexBroken { node: String },
    Hashing { reason: String },
}

#[verifier::ext_equal]
pub enum FailureView {
    Refused(Refusal),
    NoRoad { from: Seq<char>, to: Seq<char> },
    IndexBroken { node: Seq<char> },
    Hashing { reason: Seq<char> },
}

impl View for Failure {
    type V = FailureView;

    open spec fn view(&self) -> FailureView {
        match self {
            Failure::Refused(refusal) => FailureView::Refused(*refusal),
            Failure::NoRoad { from, to } => FailureView::NoRoad { from: from@, to: to@ },
            Failure::IndexBroken { node } => FailureView::IndexBroken { node: node@ },
            Failure::Hashing { reason } => FailureView::Hashing { reason: reason@ },
        }
    }
}

/// The words of a failure.
pub open spec fn failure_text(failure: FailureView) -> Seq<char> {
    match failure {
        FailureView::Refused(refusal) => refusal_text(refusal),
        FailureView::NoRoad { from, to } => "No road path found between node "@ + from
            + " and node "@ + to + "."@,
        FailureView::IndexBroken { node } => "S2 index references missing node "@ + node,
        FailureView::Hashing { reason } => reason,
    }
}

impl Failure {
    /// What the player reads.
    pub fn message(&self) -> (r: String)
        ensures
            r@ == failure_text(self@),
    {
        match self {
            Failure::Refused(refusal) => refusal.message(),
            Failure::NoRoad { from, to } => {
                let mut out = "No road path found between node ".to_owned();
                out.append(from.as_str());
                out.append(" and node ");
                out.append(to.as_str());
                out.append(".");
                out
            },
            Failure::IndexBroken { node } => {
                let mut out = "S2 index references missing node ".to_owned();
                out.append(node.as_str());
                out
            },
            Failure::Hashing { reason } => reason.clone(),
        }
    }
}

} // verus!
