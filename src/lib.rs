//! A bridge to a standalone Scribunto Lua interpreter: the values exchanged with it, their
//! textual encoding, the length-prefixed framing of messages and the request/response
//! session with its re-entrant callbacks.
pub mod number;
pub mod value;
pub mod codec;
pub mod frame;
pub mod message;
pub mod session;
pub mod stream;

pub use value::{
    LuaArray,
    LuaBool,
    LuaChunk,
    LuaFloat,
    LuaInteger,
    LuaKey,
    LuaNameType,
    LuaNull,
    LuaString,
    LuaTable,
    LuaType,
    LuaValue,
};
pub use codec::{DecodeError, decode, encode};
pub use frame::{FrameError, frame, read_header, undouble};
pub use message::{FromLuaMessage, MessageError, ToLuaMessage};
pub use session::{
    LuaError,
    LuaInstance,
    RCallLuaFunction,
    RCleanupChunks,
    RGetStatus,
    RLoadString,
    RRegisterLibrary,
    Step,
};
pub use stream::{LuaReceiver, LuaSender};
