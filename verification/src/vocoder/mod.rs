pub mod d4c;
pub mod dio;
pub mod hmm;
pub mod synthesis;
pub mod transient;
pub mod trickresolve;
