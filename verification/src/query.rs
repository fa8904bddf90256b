//! Queries: SQL with numbered placeholders, and the parameters in the
//! order of their numbers.

use crate::error::Error;
use crate::parse::{binding_names, binding_values, compile, parse};
use vstd::prelude::*;

verus! {

/// The text of a query.
#[derive(Debug)]
pub enum Sql {
    /// Text that lives as long as the program, such as a literal. A
    /// statement prepared from it may be cached under the place of the text.
    Static(&'static str),
    /// Text that was built while the program ran.
    Dynamic(String),
}

/// A query with its parameters.
///
/// The parameters are of any type `P` that can be copied: the query only
/// carries them, in the order in which the SQL numbers them.
#[derive(Debug)]
pub struct Query<P> {
    sql: Sql,
    parameters: Vec<P>,
}

impl Clone for Sql {
    fn clone(&self) -> (copy: Sql)
        ensures
            copy == *self,
    {
        match self {
            Sql::Static(text) => Sql::Static(*text),
            Sql::Dynamic(text) => Sql::Dynamic(text.clone()),
        }
    }
}

impl<P: Copy> Clone for Query<P> {
    fn clone(&self) -> (copy: Query<P>)
        ensures
            copy.text() == self.text(),
            copy.values() == self.values(),
            copy.is_static() == self.is_static(),
    {
        let mut parameters: Vec<P> = Vec::new();
        let mut i: usize = 0;
        while i < self.parameters.len()
            invariant
                i <= self.parameters.len(),
                parameters@ == self.parameters@.take(i as int),
            decreases self.parameters.len() - i,
        {
            parameters.push(self.parameters[i]);
            assert(self.parameters@.take(i + 1) =~= self.parameters@.take(i as int).push(
                self.parameters@[i as int],
            ));
            i = i + 1;
        }
        assert(self.parameters@.take(self.parameters.len() as int) =~= self.parameters@);
        Query { sql: self.sql.clone(), parameters }
    }
}

impl<P: Copy> Query<P> {
    /// The SQL of the query.
    pub closed spec fn text(&self) -> Seq<char> {
        match self.sql {
            Sql::Static(text) => text@,
            Sql::Dynamic(text) => text@,
        }
    }

    /// The parameters of the query, in the order of their numbers.
    pub closed spec fn values(&self) -> Seq<P> {
        self.parameters@
    }

    /// Whether the text of the query lives as long as the program.
    pub closed spec fn is_static(&self) -> bool {
        self.sql is Static
    }

    /// Create a new query an already prepared string.
    ///
    /// IMPORTANT: This does not allow you to pass named parameter bindings
    /// (`$name`, `$abc_123`, etc.). Instead bindings and parameters are given
    /// with numbers (`$1`, `$2`, ...).
    pub fn new(sql: String, parameters: Vec<P>) -> (query: Query<P>)
        ensures
            query.text() == sql@,
            query.values() == parameters@,
            !query.is_static(),
    {
        Query { sql: Sql::Dynamic(sql), parameters }
    }

    /// Create a new query with a static query string.
    ///
    /// IMPORTANT: This does not allow you to pass named parameter bindings
    /// (`$name`, `$abc_123`, etc.). Instead bindings and parameters are given
    /// with numbers (`$1`, `$2`, ...).
    pub fn new_static(sql: &'static str, parameters: Vec<P>) -> (query: Query<P>)
        ensures
            query.text() == sql@,
            query.values() == parameters@,
            query.is_static(),
    {
        Query { sql: Sql::Static(sql), parameters }
    }

    /// Parses a string that may contain parameter bindings on the form
    /// `$abc_123`, and numbers the bindings that it refers to.
    ///
    /// # Errors
    ///
    /// `Error::Parse` with the error that [`compile`] gives.
    pub fn parse(text: &str, bindings: &[(&str, P)]) -> (result: Result<Query<P>, Error>)
        ensures
            match compile(text@, binding_names(bindings@)) {
                Ok((sql, order)) => {
                    &&& result matches Ok(query)
                    &&& query.text() == sql
                    &&& query.values() == binding_values(bindings@, order)
                    &&& !query.is_static()
                },
                Err(e) => result matches Err(Error::Parse(error)) && error@ == e,
            },
    {
        match parse(text, bindings) {
            Ok((sql, parameters)) => Ok(Query { sql: Sql::Dynamic(sql), parameters }),
            Err(e) => Err(Error::from(e)),
        }
    }

    /// Get this query as an SQL string.
    pub fn sql(&self) -> (sql: &str)
        ensures
            sql@ == self.text(),
    {
        match &self.sql {
            Sql::Static(text) => text,
            Sql::Dynamic(text) => text.as_str(),
        }
    }

    /// Get the parameters of this query in the order expected by the
    /// query returned by `Query::sql`.
    pub fn parameters(&self) -> (parameters: &[P])
        ensures
            parameters@ == self.values(),
    {
        self.parameters.as_slice()
    }

    /// The text of the query where it lives as long as the program.
    pub fn static_sql(&self) -> (sql: Option<&'static str>)
        ensures
            match sql {
                Some(text) => self.is_static() && text@ == self.text(),
                None => !self.is_static(),
            },
    {
        match &self.sql {
            Sql::Static(text) => Some(*text),
            Sql::Dynamic(_) => None,
        }
    }
}

} // verus!
