//! Values that are checked once, when they are made.
use vstd::prelude::*;
use vstd::string::*;

use crate::text::{any_control, byte_len, chars_of, has_control, utf8_len};

verus! {

/// Initial safety budget, not a terminal-protocol limit.
pub const MAX_VISIBLE_CELLS: usize = 65_536;

/// Terminal dimensions within the cell budget.
#[derive(Clone, Copy, Debug, PartialEq, Eq, Structural)]
pub struct Size {
    columns: usize,
    rows: usize,
}

/// Dimensions that a terminal may have.
pub open spec fn valid_size(columns: int, rows: int) -> bool {
    1 <= columns <= 4096 && 1 <= rows <= 4096 && columns * rows <= MAX_VISIBLE_CELLS
}

impl Size {
    #[verifier::type_invariant]
    pub closed spec fn wf(self) -> bool {
        valid_size(self.columns as int, self.rows as int)
    }

    pub closed spec fn spec_columns(self) -> nat {
        self.columns as nat
    }

    pub closed spec fn spec_rows(self) -> nat {
        self.rows as nat
    }

    pub fn new(columns: usize, rows: usize) -> (r: Result<Self, InvalidValue>)
        ensures
            match r {
                Ok(size) => valid_size(columns as int, rows as int) && size.spec_columns()
                    == columns && size.spec_rows() == rows,
                Err(error) => !valid_size(columns as int, rows as int) && error
                    == InvalidValue::Size,
            },
    {
        if columns == 0 || rows == 0 || columns > 4096 || rows > 4096 {
            return Err(InvalidValue::Size);
        }
        assert(columns * rows <= 4096 * 4096) by (nonlinear_arith)
            requires
                columns <= 4096,
                rows <= 4096,
        ;
        if columns * rows > MAX_VISIBLE_CELLS {
            return Err(InvalidValue::Size);
        }
        Ok(Size { columns, rows })
    }

    pub fn columns(self) -> (r: usize)
        ensures
            r == self.spec_columns(),
            valid_size(self.spec_columns() as int, self.spec_rows() as int),
    {
        proof {
            use_type_invariant(&self);
        }
        self.columns
    }

    pub fn rows(self) -> (r: usize)
        ensures
            r == self.spec_rows(),
            valid_size(self.spec_columns() as int, self.spec_rows() as int),
    {
        proof {
            use_type_invariant(&self);
        }
        self.rows
    }
}

/// Two sizes with the same dimensions are the same size.
pub proof fn sizes_are_dimensions(a: Size, b: Size)
    requires
        a.spec_columns() == b.spec_columns(),
        a.spec_rows() == b.spec_rows(),
    ensures
        a == b,
{
}

/// The dimensions of a size are numbers of the machine.
pub proof fn sizes_fit(size: Size)
    ensures
        size.spec_columns() <= usize::MAX,
        size.spec_rows() <= usize::MAX,
{
}

impl Default for Size {
    fn default() -> (r: Self)
        ensures
            r.spec_columns() == 80,
            r.spec_rows() == 24,
    {
        Size { columns: 80, rows: 24 }
    }
}

/// A name, never a shell fragment or a fuzzy tmux target.
#[derive(Debug, PartialEq, Eq)]
pub struct SessionName(String);

/// Text that may name a session.
pub open spec fn valid_session_name(name: Seq<char>) -> bool {
    name.len() > 0 && utf8_len(name) <= 1024 && !has_control(name)
}

impl View for SessionName {
    type V = Seq<char>;

    closed spec fn view(&self) -> Seq<char> {
        self.0@
    }
}

impl Clone for SessionName {
    fn clone(&self) -> (r: Self)
        ensures
            r@ == self@,
    {
        proof {
            use_type_invariant(self);
        }
        SessionName(self.0.clone())
    }
}

impl SessionName {
    #[verifier::type_invariant]
    pub closed spec fn wf(self) -> bool {
        valid_session_name(self.0@)
    }

    pub fn new(name: &str) -> (r: Result<Self, InvalidValue>)
        ensures
            match r {
                Ok(session) => valid_session_name(name@) && session@ == name@,
                Err(error) => !valid_session_name(name@) && error == InvalidValue::SessionName,
            },
    {
        let chars = chars_of(name);
        if chars.len() == 0 || byte_len(name) > 1024 || any_control(chars.as_slice()) {
            return Err(InvalidValue::SessionName);
        }
        Ok(SessionName(name.to_owned()))
    }

    pub fn as_str(&self) -> (r: &str)
        ensures
            r@ == self@,
            valid_session_name(r@),
    {
        proof {
            use_type_invariant(self);
        }
        self.0.as_str()
    }
}

#[derive(Clone, Copy, Debug, PartialEq, Eq, Structural)]
pub enum InvalidValue {
    Size,
    SessionName,
}

pub open spec fn invalid_text(error: InvalidValue) -> Seq<char> {
    match error {
        InvalidValue::Size => "terminal dimensions are zero or exceed the cell budget"@,
        InvalidValue::SessionName =>
            "session name is empty, too long, or contains control characters"@,
    }
}

impl InvalidValue {
    pub fn message(self) -> (r: &'static str)
        ensures
            r@ == invalid_text(self),
    {
        match self {
            InvalidValue::Size => "terminal dimensions are zero or exceed the cell budget",
            InvalidValue::SessionName =>
                "session name is empty, too long, or contains control characters",
        }
    }
}

} // verus!
