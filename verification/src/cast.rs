//! Taking a dynamic value for what it is expected to be.

use vstd::prelude::*;
use vstd::std_specs::convert::{TryFromSpec, TryFromSpecImpl};
use crate::dynamic::{Dynamic, DynamicMap, List};

verus! {

/// Why a dynamic value could not be taken as the wanted type.
#[derive(Debug, Clone, Copy, PartialEq, Eq, Structural)]
pub enum TryFromDynamicError {
    /// The value is of another kind.
    Invalid,
}

/// The value of a `Boolean`; any other kind is refused.
impl TryFrom<Dynamic> for bool {
    type Error = TryFromDynamicError;

    fn try_from(value: Dynamic) -> (r: Result<bool, TryFromDynamicError>) {
        match value {
            Dynamic::Boolean(val) => Ok(val),
            _ => Err(TryFromDynamicError::Invalid),
        }
    }
}

impl TryFromSpecImpl<Dynamic> for bool {
    open spec fn obeys_try_from_spec() -> bool {
        true
    }

    open spec fn try_from_spec(value: Dynamic) -> Result<bool, TryFromDynamicError> {
        match value {
            Dynamic::Boolean(val) => Ok(val),
            _ => Err(TryFromDynamicError::Invalid),
        }
    }
}

/// The value of a `VlqI`; any other kind is refused.
impl TryFrom<Dynamic> for i64 {
    type Error = TryFromDynamicError;

    fn try_from(value: Dynamic) -> (r: Result<i64, TryFromDynamicError>) {
        match value {
            Dynamic::VlqI(val) => Ok(val),
            _ => Err(TryFromDynamicError::Invalid),
        }
    }
}

impl TryFromSpecImpl<Dynamic> for i64 {
    open spec fn obeys_try_from_spec() -> bool {
        true
    }

    open spec fn try_from_spec(value: Dynamic) -> Result<i64, TryFromDynamicError> {
        match value {
            Dynamic::VlqI(val) => Ok(val),
            _ => Err(TryFromDynamicError::Invalid),
        }
    }
}

/// The value of a `Double`, as the 64 bits of its pattern; any other kind is refused.
impl TryFrom<Dynamic> for u64 {
    type Error = TryFromDynamicError;

    fn try_from(value: Dynamic) -> (r: Result<u64, TryFromDynamicError>) {
        match value {
            Dynamic::Double(val) => Ok(val),
            _ => Err(TryFromDynamicError::Invalid),
        }
    }
}

impl TryFromSpecImpl<Dynamic> for u64 {
    open spec fn obeys_try_from_spec() -> bool {
        true
    }

    open spec fn try_from_spec(value: Dynamic) -> Result<u64, TryFromDynamicError> {
        match value {
            Dynamic::Double(val) => Ok(val),
            _ => Err(TryFromDynamicError::Invalid),
        }
    }
}

/// The value of a `String`; any other kind is refused.
impl TryFrom<Dynamic> for String {
    type Error = TryFromDynamicError;

    fn try_from(value: Dynamic) -> (r: Result<String, TryFromDynamicError>) {
        match value {
            Dynamic::String(val) => Ok(val),
            _ => Err(TryFromDynamicError::Invalid),
        }
    }
}

impl TryFromSpecImpl<Dynamic> for String {
    open spec fn obeys_try_from_spec() -> bool {
        true
    }

    open spec fn try_from_spec(value: Dynamic) -> Result<String, TryFromDynamicError> {
        match value {
            Dynamic::String(val) => Ok(val),
            _ => Err(TryFromDynamicError::Invalid),
        }
    }
}

/// The value of a `List`; any other kind is refused.
impl TryFrom<Dynamic> for List {
    type Error = TryFromDynamicError;

    fn try_from(value: Dynamic) -> (r: Result<List, TryFromDynamicError>) {
        match value {
            Dynamic::List(val) => Ok(val),
            _ => Err(TryFromDynamicError::Invalid),
        }
    }
}

impl TryFromSpecImpl<Dynamic> for List {
    open spec fn obeys_try_from_spec() -> bool {
        true
    }

    open spec fn try_from_spec(value: Dynamic) -> Result<List, TryFromDynamicError> {
        match value {
            Dynamic::List(val) => Ok(val),
            _ => Err(TryFromDynamicError::Invalid),
        }
    }
}

/// The value of a `Mapping`; any other kind is refused.
impl TryFrom<Dynamic> for DynamicMap {
    type Error = TryFromDynamicError;

    fn try_from(value: Dynamic) -> (r: Result<DynamicMap, TryFromDynamicError>) {
        match value {
            Dynamic::Mapping(val) => Ok(val),
            _ => Err(TryFromDynamicError::Invalid),
        }
    }
}

impl TryFromSpecImpl<Dynamic> for DynamicMap {
    open spec fn obeys_try_from_spec() -> bool {
        true
    }

    open spec fn try_from_spec(value: Dynamic) -> Result<DynamicMap, TryFromDynamicError> {
        match value {
            Dynamic::Mapping(val) => Ok(val),
            _ => Err(TryFromDynamicError::Invalid),
        }
    }
}

impl Dynamic {
    /// The value inside, where the dynamic value is of the kind that `T`
    /// stands for, and nothing where it is of another kind.
    pub fn cast<T: TryFrom<Dynamic>>(self) -> (r: Option<T>)
        ensures
            T::obeys_try_from_spec() ==> r == match T::try_from_spec(self) {
                Ok(val) => Some(val),
                Err(_) => None,
            },
    {
        match T::try_from(self) {
            Ok(val) => Some(val),
            Err(_) => None,
        }
    }
}

} // verus!
