//! The query text of the graph write protocol.
//!
//! One parameterized query per store operation, exactly as the driver sends
//! them. Keeping the text here ties each query to the model operation whose
//! contract describes its effect.

use vstd::prelude::*;

verus! {

/// The text of the relationship upsert query.
pub open spec fn insert_sentiment_query_text() -> Seq<char> {
    "
MATCH (p:Project {datasetName: $datasetName})
MERGE (p)-[:OWNS]->(sender:User {email: $senderEmail})
MERGE (p)-[:OWNS]->(receiver:User {email: $receiverEmail})
MERGE (sender)-[r:SENTIMENT]-(receiver)
ON CREATE SET r.sentiment = $sentiment, r.emailsSent = $emailsSent
ON MATCH SET r.sentiment = $sentiment, r.emailsSent = $emailsSent
RETURN sender, receiver, r
"@
}

/// Finds the project, creates both users under it if absent, and sets the
/// fields of the single undirected edge between them.
pub fn insert_sentiment_query() -> (r: &'static str)
    ensures
        r@ == insert_sentiment_query_text(),
{
    "
MATCH (p:Project {datasetName: $datasetName})
MERGE (p)-[:OWNS]->(sender:User {email: $senderEmail})
MERGE (p)-[:OWNS]->(receiver:User {email: $receiverEmail})
MERGE (sender)-[r:SENTIMENT]-(receiver)
ON CREATE SET r.sentiment = $sentiment, r.emailsSent = $emailsSent
ON MATCH SET r.sentiment = $sentiment, r.emailsSent = $emailsSent
RETURN sender, receiver, r
"
}

/// The text of the project creation query.
pub open spec fn create_project_query_text() -> Seq<char> {
    "
CREATE (p:Project {datasetName: $datasetName})
RETURN p
"@
}

/// Creates one project node, unconditionally.
pub fn create_project_query() -> (r: &'static str)
    ensures
        r@ == create_project_query_text(),
{
    "
CREATE (p:Project {datasetName: $datasetName})
RETURN p
"
}

/// The text of the project deletion query.
pub open spec fn delete_project_query_text() -> Seq<char> {
    "
MATCH (p:Project {datasetName: $datasetName}), (p)-[:OWNS]->(n)
DETACH DELETE n
DELETE p
"@
}

/// Deletes the project and everything it owns.
pub fn delete_project_query() -> (r: &'static str)
    ensures
        r@ == delete_project_query_text(),
{
    "
MATCH (p:Project {datasetName: $datasetName}), (p)-[:OWNS]->(n)
DETACH DELETE n
DELETE p
"
}

/// The text of the single-project lookup query.
pub open spec fn get_project_query_text() -> Seq<char> {
    "
MATCH (p:Project {datasetName: $datasetName})
RETURN p.datasetName
"@
}

/// Looks one project up by name, for the existence check before deletion.
pub fn get_project_query() -> (r: &'static str)
    ensures
        r@ == get_project_query_text(),
{
    "
MATCH (p:Project {datasetName: $datasetName})
RETURN p.datasetName
"
}

/// The text of the project listing query.
pub open spec fn get_projects_query_text() -> Seq<char> {
    "
MATCH (p:Project) RETURN p.datasetName as dName
"@
}

/// Lists the names of all projects.
pub fn get_projects_query() -> (r: &'static str)
    ensures
        r@ == get_projects_query_text(),
{
    "
MATCH (p:Project) RETURN p.datasetName as dName
"
}

} // verus!
