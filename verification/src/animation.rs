//! The animation that an entity plays.

use crate::decoding::{Decodable, DecodingError};
use crate::encoding::{Encodable, EncodingError};
use crate::reader::ByteReader;
use vstd::prelude::*;

verus! {

/// Which animation an entity plays. It travels as one byte: its number.
#[derive(Clone, Copy, Debug, PartialEq, Eq, Hash, Structural)]
pub enum EntityAnimationType {
    SwingMainArm,
    TakeDamage,
    LeaveBed,
    SwingOffHand,
    CriticalEffect,
    MagicCriticalEffect,
}

impl EntityAnimationType {
    /// The number of the animation.
    pub open spec fn number(self) -> u8 {
        match self {
            EntityAnimationType::SwingMainArm => 0,
            EntityAnimationType::TakeDamage => 1,
            EntityAnimationType::LeaveBed => 2,
            EntityAnimationType::SwingOffHand => 3,
            EntityAnimationType::CriticalEffect => 4,
            EntityAnimationType::MagicCriticalEffect => 5,
        }
    }

    /// The animation with the given number, where there is one.
    pub open spec fn with_number(number: u8) -> Option<EntityAnimationType> {
        if number == 0 {
            Some(EntityAnimationType::SwingMainArm)
        } else if number == 1 {
            Some(EntityAnimationType::TakeDamage)
        } else if number == 2 {
            Some(EntityAnimationType::LeaveBed)
        } else if number == 3 {
            Some(EntityAnimationType::SwingOffHand)
        } else if number == 4 {
            Some(EntityAnimationType::CriticalEffect)
        } else if number == 5 {
            Some(EntityAnimationType::MagicCriticalEffect)
        } else {
            None
        }
    }
}

impl DeepView for EntityAnimationType {
    type V = EntityAnimationType;

    open spec fn deep_view(&self) -> EntityAnimationType {
        *self
    }
}

impl Encodable for EntityAnimationType {
    open spec fn fits(&self) -> Result<(), EncodingError> {
        Ok(())
    }

    open spec fn wire(&self) -> Seq<u8> {
        seq![self.number()]
    }

    fn encode(&self, writer: &mut Vec<u8>) -> (r: Result<(), EncodingError>) {
        let number: u8 = match self {
            EntityAnimationType::SwingMainArm => 0,
            EntityAnimationType::TakeDamage => 1,
            EntityAnimationType::LeaveBed => 2,
            EntityAnimationType::SwingOffHand => 3,
            EntityAnimationType::CriticalEffect => 4,
            EntityAnimationType::MagicCriticalEffect => 5,
        };
        writer.push(number);
        Ok(())
    }
}

impl Decodable for EntityAnimationType {
    open spec fn parse(bytes: Seq<u8>) -> Result<(EntityAnimationType, nat), DecodingError> {
        if bytes.len() == 0 {
            Err(DecodingError::UnexpectedEof)
        } else {
            match EntityAnimationType::with_number(bytes[0]) {
                Some(animation) => Ok((animation, 1)),
                None => Err(DecodingError::UnsupportedDiscriminant),
            }
        }
    }

    /// The byte of the number is read, where there is one, whatever it holds.
    open spec fn stop(bytes: Seq<u8>) -> nat {
        if bytes.len() == 0 {
            0
        } else {
            1
        }
    }

    fn decode(reader: &mut ByteReader<'_>) -> (r: Result<Self, DecodingError>) {
        let number = reader.read_u8()?;
        match number {
            0 => Ok(EntityAnimationType::SwingMainArm),
            1 => Ok(EntityAnimationType::TakeDamage),
            2 => Ok(EntityAnimationType::LeaveBed),
            3 => Ok(EntityAnimationType::SwingOffHand),
            4 => Ok(EntityAnimationType::CriticalEffect),
            5 => Ok(EntityAnimationType::MagicCriticalEffect),
            _ => Err(DecodingError::UnsupportedDiscriminant),
        }
    }
}

/// Every animation decodes from its byte to itself, whatever follows it, and
/// the number of an animation picks that animation and no other.
pub proof fn lemma_animation_round_trip(animation: EntityAnimationType, rest: Seq<u8>)
    ensures
        EntityAnimationType::parse(animation.wire() + rest) == Ok::<
            (EntityAnimationType, nat),
            DecodingError,
        >((animation, 1)),
        EntityAnimationType::with_number(animation.number()) == Some(animation),
{
    assert((animation.wire() + rest)[0] == animation.number());
}

} // verus!
