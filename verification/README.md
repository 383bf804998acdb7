# hirpuscity

The verified core of HIRPUSPAGES, a self-hosted static site platform:
every user picks a subdomain, receives a UUID key as their credential and
uploads HTML, CSS and image files that are then served on that subdomain.

`src/` is the library, checked by Verus:

- `store.rs`: the site registry (one record per subdomain), the subdomain
  rules, name/description cleaning, search and listings, directory
  listings; the laws of signup, login, key reset, deletion and reload.
- `rank.rs`: the sorted order used by search and listings.
- `auth.rs`: session cookies and the `Cookie` header.
- `sanitize.rs`: upload and stored file names.
- `serve_site.rs`: which file a user-site request names, visit counting
  and the reply.
- `platform.rs`: settings, host dispatch and frontend asset names.
- `api.rs`: what each JSON endpoint decides and answers.
- `text.rs`: the string functions the rest is stated with.
- `outside.rs`: the calls into `uuid`, `percent-encoding`, `mime_guess`
  and the parts of `std` that have no specification, each with the
  contract the library relies on.

`app/` is the server around it: configuration, axum routes, the
`sites.json` registry file and the site directories.
