# graphql_resolve

A verified resolver for GraphQL requests to a database.

Given a parsed document, the request's variables and the name of an operation, the library
decides which operation runs and on which root type, or answers the request with the reason why
none does. It then carries the operation out one field at a time. The work behind a field (a SQL
query, a function call, the description of a type) is asked for as an action; the caller performs
it and hands the outcome back.

- A query keeps the fields that succeeded beside the errors of those that failed.
- A mutation ends at its first failure, with an error that is to be raised in the database so
  that nothing of it lasts.

## Layout

- `src/`: the library. The proof functions whose names begin with `law_` state what holds of it as
  a whole.
- `tests/`: tests on documents, and on queries and mutations field by field.
- `app/`: the loop around the library, on documents of `graphql_parser` and on a database behind
  the trait `Host`.
